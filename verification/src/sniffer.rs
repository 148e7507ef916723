//! The sniffer's packet lists: names offered for sending, which captured
//! packets a search shows, and the short texts shown for each packet.

use std::collections::{HashMap, HashSet};

use vstd::prelude::*;
use vstd::utf8::encode_utf8;

use crate::config::{key_view, keys_view, stable_sort_by_keys, stable_sort_witness, PairKey};
use crate::hex::{hex_encode, hex_spaced};
use crate::protobuf::{
    base64_encode, base64_standard, decode_tree, head_pid, json_number, json_object, json_pretty, json_string,
    number_value, object_value, packet_head_pid, pretty_json, raw_json_pretty, raw_protobuf_json, string_value,
    RawValueView,
};
use crate::sniff_file::{DecodedPacket, PacketSource};
use crate::text::{
    at_most, first_lines, join_with, lines, collapse_chars, collapse_whitespace, contains_chars, contains_text, decimal, parse_u64,
    parse_u64_seq, push_decimal, string_from_chars, to_chars,
};

verus! {

broadcast use vstd::std_specs::hash::group_hash_axioms;

/// What `str::to_lowercase` gives for the characters `s`.
pub uninterp spec fn lowercase(s: Seq<char>) -> Seq<char>;

/// `s` in lower case, by `str::to_lowercase`. Trusted: the result is std's
/// lower-case mapping of the characters of `s`, a function of them alone;
/// the mapping itself is not stated here.
#[verifier::external_body]
pub(crate) fn to_lower(s: &str) -> (r: String)
    ensures
        r@ == lowercase(s@),
{
    s.to_lowercase()
}

/// A message name offered in the send dialog.
#[derive(Clone, Debug)]
pub struct PacketNameEntry {
    pub cmd_id: u32,
    pub cmd_id_text: String,
    pub name: String,
    pub search_name: String,
}

/// The decimal text of `n`.
pub fn decimal_string(n: u64) -> (s: String)
    ensures
        s@ == decimal(n as nat),
{
    let mut out: Vec<char> = Vec::new();
    push_decimal(&mut out, n);
    assert(out@ =~= decimal(n as nat));
    string_from_chars(&out)
}

impl PacketNameEntry {
    /// The entry of message `name` with command id `cmd_id`; it is searched
    /// by its name in lower case.
    pub fn new(cmd_id: u32, name: String) -> (e: Self)
        ensures
            e.cmd_id == cmd_id,
            e.cmd_id_text@ == decimal(cmd_id as nat),
            e.name@ == name@,
            e.search_name@ == lowercase(name@),
    {
        let search_name = to_lower(name.as_str());
        PacketNameEntry { cmd_id, cmd_id_text: decimal_string(cmd_id as u64), search_name, name }
    }
}

/// The text `u32::from_str` accepts, and its value.
pub open spec fn parse_u32_seq(s: Seq<char>) -> Option<u32> {
    match parse_u64_seq(s) {
        Some(v) => if v <= u32::MAX {
            Some(v as u32)
        } else {
            None
        },
        None => None,
    }
}

/// The command id an input names: the input read as a number, or else the
/// id of the message it names (`by_name`, from the protocol table).
pub fn resolve_cmd(input: &str, by_name: Option<u32>) -> (r: Option<u32>)
    ensures
        r == match parse_u32_seq(input@) {
            Some(v) => Some(v),
            None => by_name,
        },
{
    match parse_u64(&to_chars(input)) {
        Some(v) => if v <= 0xffff_ffff {
            Some(v as u32)
        } else {
            by_name
        },
        None => by_name,
    }
}

/// The indices `0..len`.
pub fn all_indices(len: usize) -> (v: Vec<usize>)
    ensures
        v@.len() == len,
        forall|i: int| 0 <= i < len ==> v@[i] == i,
{
    let mut v: Vec<usize> = Vec::new();
    for i in 0..len
        invariant
            v@.len() == i,
            forall|k: int| 0 <= k < i ==> v@[k] == k,
    {
        v.push(i);
    }
    v
}


/// The sort key of a protocol table entry: its message name.
pub open spec fn name_key(p: (u32, String)) -> PairKey {
    (p.1@, Seq::empty())
}

/// The sort keys of protocol table entries.
pub open spec fn name_keys(s: Seq<(u32, String)>) -> Seq<PairKey> {
    s.map_values(|p: (u32, String)| name_key(p))
}

/// `e` is the send-dialog entry of the table entry `p`.
pub open spec fn entry_of(p: (u32, String), e: PacketNameEntry) -> bool {
    &&& e.cmd_id == p.0
    &&& e.cmd_id_text@ == decimal(p.0 as nat)
    &&& e.name@ == p.1@
    &&& e.search_name@ == lowercase(p.1@)
}

/// The protocol table entries `items` stably sorted by message name.
pub fn sort_by_name(items: Vec<(u32, String)>) -> (out: Vec<(u32, String)>)
    ensures
        exists|perm: Seq<int>| stable_sort_witness(out@, name_keys(out@), items@, name_keys(items@), perm),
{
    let mut items = items;
    let mut keys: Vec<(Vec<char>, Vec<char>)> = Vec::new();
    for i in 0..items.len()
        invariant
            keys@.len() == i,
            forall|k: int| 0 <= k < i ==> #[trigger] key_view(keys@[k]) == name_key(items@[k]),
    {
        keys.push((to_chars(items[i].1.as_str()), Vec::new()));
        assert(key_view(keys@[i as int]) =~= name_key(items@[i as int]));
    }
    let ghost inp = items@;
    let ghost ki = keys_view(keys@);
    assert(ki =~= name_keys(inp));
    stable_sort_by_keys(&mut items, &mut keys);
    let ghost perm = choose|perm: Seq<int>| stable_sort_witness(items@, keys_view(keys@), inp, ki, perm);
    proof {
        assert forall|k: int| 0 <= k < items@.len() implies #[trigger] keys_view(keys@)[k]
            == name_key(items@[k]) by {
            assert(items@[k] == inp[perm[k]]);
        }
        assert(keys_view(keys@) =~= name_keys(items@));
        assert(stable_sort_witness(items@, name_keys(items@), inp, name_keys(inp), perm));
    }
    items
}

/// The entries of the protocol table `names` (command id and message name),
/// sorted by name; entries with the same name keep their order.
pub fn sorted_packet_names(names: Vec<(u32, String)>) -> (out: Vec<PacketNameEntry>)
    ensures
        exists|sorted: Seq<(u32, String)>, perm: Seq<int>|
            {
                &&& stable_sort_witness(sorted, name_keys(sorted), names@, name_keys(names@), perm)
                &&& out@.len() == sorted.len()
                &&& forall|k: int| 0 <= k < sorted.len() ==> entry_of(#[trigger] sorted[k], out@[k])
            },
{
    let items = sort_by_name(names);
    let mut out: Vec<PacketNameEntry> = Vec::new();
    for i in 0..items.len()
        invariant
            out@.len() == i,
            forall|k: int| 0 <= k < i ==> entry_of(#[trigger] items@[k], out@[k]),
    {
        let name = items[i].1.clone();
        out.push(PacketNameEntry::new(items[i].0, name));
    }
    out
}

/// Whether the packet picker lists the table entry `p` for the search `q`:
/// its command id is not excluded, and the search is empty or found in its
/// name in lower case or in its command id.
pub open spec fn picker_keep(p: (u32, String), exclude: Set<u32>, q: Seq<char>) -> bool {
    &&& !exclude.contains(p.0)
    &&& q.len() == 0 || contains_text(lowercase(p.1@), q) || contains_text(decimal(p.0 as nat), q)
}

/// The table entries of `s` the picker lists, in table order.
pub open spec fn picker_entries(s: Seq<(u32, String)>, exclude: Set<u32>, q: Seq<char>) -> Seq<(u32, String)>
    decreases s.len(),
{
    if s.len() == 0 {
        seq![]
    } else {
        let before = picker_entries(s.drop_last(), exclude, q);
        if picker_keep(s.last(), exclude, q) {
            before.push(s.last())
        } else {
            before
        }
    }
}

/// The entries the packet picker lists for the search text `input`
/// (compared in lower case): those of the protocol table `names` that it
/// keeps, sorted by name.
pub fn picker_items(names: Vec<(u32, String)>, exclude: &HashSet<u32>, input: &str) -> (out: Vec<(u32, String)>)
    ensures
        exists|perm: Seq<int>|
            stable_sort_witness(
                out@,
                name_keys(out@),
                picker_entries(names@, exclude@, lowercase(input@)),
                name_keys(picker_entries(names@, exclude@, lowercase(input@))),
                perm,
            ),
{
    let query = to_lower(input);
    let q = to_chars(query.as_str());
    let ghost all = names@;
    let mut kept: Vec<(u32, String)> = Vec::new();
    for entry in it: names
        invariant
            it.seq() == all,
            kept@ == picker_entries(all.take(it.index() as int), exclude@, q@),
    {
        let ghost before = all.take(it.index() as int);
        assert(all.take(it.index() + 1).drop_last() =~= before);
        let keep = !exclude.contains(&entry.0) && (q.len() == 0 || text_contains(
            to_lower(entry.1.as_str()).as_str(),
            &q,
        ) || text_contains(decimal_string(entry.0 as u64).as_str(), &q));
        if keep {
            kept.push(entry);
        }
    }
    assert(all.take(all.len() as int) =~= all);
    sort_by_name(kept)
}

/// The name shown for a packet decoded with `name` and command id `cmd_id`,
/// where the protocol table knows the name `known` for that id.
pub open spec fn shown_name(name: Option<String>, known: Option<String>, cmd_id: u32) -> Seq<char> {
    match name {
        Some(n) => n@,
        None => match known {
            Some(k) => k@,
            None => seq!['C', 'm', 'd', ' '] + decimal(cmd_id as nat),
        },
    }
}

/// The name shown for a packet: the name it was decoded with, else the name
/// the protocol table knows for its command id (`known`), else `Cmd` and the
/// id.
pub fn resolve_name(name: &Option<String>, known: Option<String>, cmd_id: u32) -> (r: String)
    ensures
        r@ == shown_name(*name, known, cmd_id),
{
    match name {
        Some(n) => n.clone(),
        None => match known {
            Some(k) => k,
            None => {
                let mut out: Vec<char> = Vec::new();
                out.push('C');
                out.push('m');
                out.push('d');
                out.push(' ');
                push_decimal(&mut out, cmd_id as u64);
                string_from_chars(&out)
            },
        },
    }
}


/// How many characters a body preview shows before it is cut.
pub const MAX_PREVIEW_CHARS: usize = 220;

/// The longest body, in bytes, that a preview reads as JSON.
pub const MAX_PARSE_BYTES: usize = 16384;

/// What `serde_json` writes when it reads `text` as a JSON value and writes
/// that value back without whitespace; `None` where `text` is not JSON.
pub uninterp spec fn json_compacted(text: Seq<char>) -> Option<Seq<char>>;

/// `text` read as a JSON value by `serde_json::from_str` and written back by
/// `serde_json::to_string`. Trusted: the result is what these calls give, a
/// function of the text alone, and `None` exactly when one of them fails.
#[verifier::external_body]
fn compact_json(text: &str) -> (r: Option<String>)
    ensures
        match r {
            Some(t) => json_compacted(text@) == Some(t@),
            None => json_compacted(text@) is None,
        },
{
    serde_json::from_str::<serde_json::Value>(text).and_then(|v| serde_json::to_string(&v)).ok()
}

/// `c` cut after `MAX_PREVIEW_CHARS` characters, with `...` where it was cut.
pub open spec fn preview_cut(c: Seq<char>) -> Seq<char> {
    if c.len() > MAX_PREVIEW_CHARS {
        c.take(MAX_PREVIEW_CHARS as int) + seq!['.', '.', '.']
    } else {
        c
    }
}

/// The preview of a body: its compact JSON form `json` where there is one,
/// else its words joined by single spaces; cut after `MAX_PREVIEW_CHARS`
/// characters.
pub fn preview_from(value: &str, json: Option<String>) -> (r: String)
    ensures
        r@ == preview_cut(
            match json {
                Some(t) => t@,
                None => collapse_whitespace(value@),
            },
        ),
{
    let c = match json {
        Some(t) => to_chars(t.as_str()),
        None => collapse_chars(&to_chars(value)),
    };
    if c.len() > MAX_PREVIEW_CHARS {
        let mut out: Vec<char> = Vec::new();
        for i in 0..MAX_PREVIEW_CHARS
            invariant
                c@.len() > MAX_PREVIEW_CHARS,
                out@ == c@.take(i as int),
        {
            out.push(c[i]);
            assert(c@.take(i + 1) =~= c@.take(i as int).push(c@[i as int]));
        }
        out.push('.');
        out.push('.');
        out.push('.');
        assert(out@ =~= preview_cut(c@));
        string_from_chars(&out)
    } else {
        string_from_chars(&c)
    }
}

/// The one-line preview of the body `value`.
pub open spec fn preview_text(value: Seq<char>) -> Seq<char> {
    preview_cut(
        if encode_utf8(value).len() <= MAX_PARSE_BYTES {
            match json_compacted(value) {
                Some(t) => t,
                None => collapse_whitespace(value),
            }
        } else {
            collapse_whitespace(value)
        },
    )
}

/// The one-line preview of a JSON body shown in the packet list: the body
/// written compactly when it is JSON of at most `MAX_PARSE_BYTES` bytes,
/// else its words joined by single spaces; cut after `MAX_PREVIEW_CHARS`
/// characters.
pub fn compact_preview(value: &str) -> (r: String)
    ensures
        r@ == preview_text(value@),
{
    if value.as_bytes().len() <= MAX_PARSE_BYTES {
        preview_from(value, compact_json(value))
    } else {
        preview_from(value, None)
    }
}


/// The texts shown in a packet's row of the list.
#[derive(Clone, Debug)]
pub struct PacketRowCache {
    pub cmd_id_text: String,
    pub name: String,
    pub name_lower: String,
    pub pid_text: String,
    pub len_text: String,
    pub body_preview: String,
}

/// `row` holds the texts of packet `p`, whose name the protocol table gives
/// as `known`.
pub open spec fn row_of(p: DecodedPacket, known: Option<String>, row: PacketRowCache) -> bool {
    let name = match p.name {
        Some(n) => n@,
        None => match known {
            Some(k) => k@,
            None => seq!['C', 'm', 'd', ' '] + decimal(p.cmd_id as nat),
        },
    };
    &&& row.cmd_id_text@ == decimal(p.cmd_id as nat)
    &&& row.name@ == name
    &&& row.name_lower@ == lowercase(name)
    &&& row.pid_text@ == decimal(head_pid(p.head@) as nat)
    &&& row.len_text@ == decimal(p.body@.len())
    &&& row.body_preview@ == match p.body_json {
        Some(b) => preview_text(b@),
        None => Seq::<char>::empty(),
    }
}

/// The row texts of `packet`; `known` is the name the protocol table gives
/// its command id.
pub fn packet_row_cache(packet: &DecodedPacket, known: Option<String>) -> (row: PacketRowCache)
    ensures
        row_of(*packet, known, row),
{
    let name = resolve_name(&packet.name, known, packet.cmd_id);
    let body_preview = match &packet.body_json {
        Some(b) => compact_preview(b.as_str()),
        None => String::new(),
    };
    let name_lower = to_lower(name.as_str());
    PacketRowCache {
        cmd_id_text: decimal_string(packet.cmd_id as u64),
        name_lower,
        name,
        pid_text: decimal_string(packet_head_pid(packet.head.as_slice())),
        len_text: decimal_string(packet.body.len() as u64),
        body_preview,
    }
}

/// The indices below `n` that `keep` accepts, in increasing order.
pub open spec fn indices_upto(n: nat, keep: spec_fn(int) -> bool) -> Seq<usize>
    decreases n,
{
    if n == 0 {
        seq![]
    } else {
        let before = indices_upto((n - 1) as nat, keep);
        if keep(n - 1) {
            before.push((n - 1) as usize)
        } else {
            before
        }
    }
}

/// Whether the search `q` shows the packet `p` with row texts `row`: its
/// command id or lower-case name contains `q`, or its body in lower case does.
pub open spec fn row_matches(p: DecodedPacket, row: PacketRowCache, q: Seq<char>) -> bool {
    ||| contains_text(row.cmd_id_text@, q)
    ||| contains_text(row.name_lower@, q)
    ||| (p.body_json matches Some(b) && contains_text(lowercase(b@), q))
}

/// Whether the search `q` shows the packet at `index`: always for an empty
/// search, else when the packet and its row exist and match.
pub open spec fn shown_by(packets: Seq<DecodedPacket>, rows: Seq<PacketRowCache>, index: int, q: Seq<char>) -> bool {
    q.len() == 0 || (0 <= index < packets.len() && index < rows.len() && row_matches(
        packets[index],
        rows[index],
        q,
    ))
}

/// Whether `text` contains `q`.
fn text_contains(text: &str, q: &Vec<char>) -> (r: bool)
    ensures
        r == contains_text(text@, q@),
{
    contains_chars(&to_chars(text), q)
}

/// Whether the search `query` (already in lower case) shows the packet at
/// `index`.
pub fn packet_matches_index(
    packets: &Vec<DecodedPacket>,
    rows: &Vec<PacketRowCache>,
    index: usize,
    query: &str,
) -> (r: bool)
    ensures
        r == shown_by(packets@, rows@, index as int, query@),
{
    let q = to_chars(query);
    if q.len() == 0 {
        return true;
    }
    if index >= packets.len() || index >= rows.len() {
        return false;
    }
    let row = &rows[index];
    if text_contains(row.cmd_id_text.as_str(), &q) || text_contains(row.name_lower.as_str(), &q) {
        return true;
    }
    match &packets[index].body_json {
        Some(b) => {
            let lower = to_lower(b.as_str());
            text_contains(lower.as_str(), &q)
        },
        None => false,
    }
}

/// The packets the list shows for a search: not excluded by command id, and
/// shown by the search.
pub open spec fn search_keep(
    packets: Seq<DecodedPacket>,
    rows: Seq<PacketRowCache>,
    excluded: Set<u32>,
    q: Seq<char>,
) -> spec_fn(int) -> bool {
    |i: int| !excluded.contains(packets[i].cmd_id) && shown_by(packets, rows, i, q)
}

/// The indices of the packets shown for the search text `input` (compared in
/// lower case), in capture order.
pub fn filtered_indices(
    packets: &Vec<DecodedPacket>,
    rows: &Vec<PacketRowCache>,
    excluded: &HashSet<u32>,
    input: &str,
) -> (out: Vec<usize>)
    ensures
        out@ == indices_upto(
            packets@.len(),
            search_keep(packets@, rows@, excluded@, lowercase(input@)),
        ),
{
    let query = to_lower(input);
    let ghost keep = search_keep(packets@, rows@, excluded@, lowercase(input@));
    let mut out: Vec<usize> = Vec::new();
    for i in 0..packets.len()
        invariant
            keep == search_keep(packets@, rows@, excluded@, query@),
            out@ == indices_upto(i as nat, keep),
    {
        let shown = !excluded.contains(&packets[i].cmd_id) && packet_matches_index(
            packets,
            rows,
            i,
            query.as_str(),
        );
        if shown {
            out.push(i);
        }
        assert(shown == keep(i as int));
    }
    out
}

/// The packets listed without a search: those whose command id is not
/// excluded.
pub open spec fn base_keep(packets: Seq<DecodedPacket>, excluded: Set<u32>) -> spec_fn(int) -> bool {
    |i: int| !excluded.contains(packets[i].cmd_id)
}

/// The indices of the packets whose command id is not excluded, in capture
/// order.
pub fn base_indices(packets: &Vec<DecodedPacket>, excluded: &HashSet<u32>) -> (out: Vec<usize>)
    ensures
        out@ == indices_upto(packets@.len(), base_keep(packets@, excluded@)),
{
    let ghost keep = base_keep(packets@, excluded@);
    let mut out: Vec<usize> = Vec::new();
    for i in 0..packets.len()
        invariant
            keep == base_keep(packets@, excluded@),
            out@ == indices_upto(i as nat, keep),
    {
        let kept = !excluded.contains(&packets[i].cmd_id);
        if kept {
            out.push(i);
        }
        assert(kept == keep(i as int));
    }
    out
}

/// Whether entry `k` of `base` lists the packet with id `id`.
pub open spec fn lists_packet(base: Seq<usize>, packets: Seq<DecodedPacket>, k: int, id: u64) -> bool {
    base[k] < packets.len() && packets[base[k] as int].id == id
}

/// The position in `base` of the packet with id `id`: the first entry that
/// lists it.
pub fn base_position(base: &Vec<usize>, packets: &Vec<DecodedPacket>, id: u64) -> (r: Option<usize>)
    ensures
        match r {
            Some(k) => k < base@.len() && lists_packet(base@, packets@, k as int, id) && forall|j: int|
                0 <= j < k ==> !#[trigger] lists_packet(base@, packets@, j, id),
            None => forall|j: int| 0 <= j < base@.len() ==> !#[trigger] lists_packet(base@, packets@, j, id),
        },
{
    for k in 0..base.len()
        invariant
            forall|j: int| 0 <= j < k ==> !#[trigger] lists_packet(base@, packets@, j, id),
    {
        let p = base[k];
        if p < packets.len() && packets[p].id == id {
            return Some(k);
        }
    }
    None
}

/// The send-dialog entries a search `q` shows: all for an empty search, else
/// those whose lower-case name or command id contains it.
pub open spec fn send_keep(names: Seq<PacketNameEntry>, q: Seq<char>) -> spec_fn(int) -> bool {
    |i: int|
        q.len() == 0 || contains_text(names[i].search_name@, q) || contains_text(
            names[i].cmd_id_text@,
            q,
        )
}

/// The indices of the send-dialog entries shown for the search text `input`
/// (compared in lower case), in order.
pub fn send_filtered_indices(names: &Vec<PacketNameEntry>, input: &str) -> (out: Vec<usize>)
    ensures
        out@ == indices_upto(names@.len(), send_keep(names@, lowercase(input@))),
{
    let query = to_lower(input);
    let q = to_chars(query.as_str());
    let ghost keep = send_keep(names@, lowercase(input@));
    let mut out: Vec<usize> = Vec::new();
    for i in 0..names.len()
        invariant
            keep == send_keep(names@, q@),
            out@ == indices_upto(i as nat, keep),
    {
        let shown = q.len() == 0 || text_contains(names[i].search_name.as_str(), &q)
            || text_contains(names[i].cmd_id_text.as_str(), &q);
        if shown {
            out.push(i);
        }
        assert(shown == keep(i as int));
    }
    out
}


/// Whether `p` answers (or is answered by) the selected packet: another
/// packet, from the other side, carrying the same packet id.
pub open spec fn pairs_with(p: DecodedPacket, pid: u64, source: PacketSource, selected_id: u64) -> bool {
    p.id != selected_id && p.source != source && head_pid(p.head@) == pid
}

/// How the paired packet is named: by its name, else `<cmd:` and its
/// command id and `>`.
pub open spec fn pair_label(p: DecodedPacket) -> Seq<char> {
    match p.name {
        Some(n) => n@,
        None => seq!['<', 'c', 'm', 'd', ':'] + decimal(p.cmd_id as nat) + seq!['>'],
    }
}

/// What is shown as the packet paired with the selected one: `-` when the
/// packet id is 0 or no packet pairs with it, else the label of the first
/// packet that does.
pub open spec fn paired_name(packets: Seq<DecodedPacket>, pid: u64, source: PacketSource, selected_id: u64) -> Seq<char> {
    if pid == 0 {
        seq!['-']
    } else {
        match first_pair(packets, pid, source, selected_id) {
            Some(i) => pair_label(packets[i]),
            None => seq!['-'],
        }
    }
}

/// The name of the packet paired with the selected one (id `selected_id`,
/// from `source`, with packet id `pid`): the first other packet from the
/// other side with the same packet id; `-` when the packet id is 0 or there
/// is none.
pub fn paired_packet_name(
    packets: &Vec<DecodedPacket>,
    pid: u64,
    source: PacketSource,
    selected_id: u64,
) -> (r: String)
    ensures
        r@ == paired_name(packets@, pid, source, selected_id),
{
    if pid == 0 {
        let mut out: Vec<char> = Vec::new();
        out.push('-');
        return string_from_chars(&out);
    }
    for i in 0..packets.len()
        invariant
            pid != 0,
            forall|j: int| 0 <= j < i ==> !#[trigger] pairs_with(packets@[j], pid, source, selected_id),
    {
        let p = &packets[i];
        if p.id != selected_id && p.source != source && packet_head_pid(p.head.as_slice()) == pid {
            proof {
                lemma_first_pair(packets@, pid, source, selected_id, i as int);
            }
            match &p.name {
                Some(n) => {
                    return n.clone();
                },
                None => {
                    let mut out: Vec<char> = Vec::new();
                    out.push('<');
                    out.push('c');
                    out.push('m');
                    out.push('d');
                    out.push(':');
                    push_decimal(&mut out, p.cmd_id as u64);
                    out.push('>');
                    assert(out@ =~= pair_label(packets@[i as int]));
                    return string_from_chars(&out);
                },
            }
        }
    }
    proof {
        lemma_no_pair(packets@, pid, source, selected_id);
    }
    let mut out: Vec<char> = Vec::new();
    out.push('-');
    string_from_chars(&out)
}

/// The index of the first packet that pairs with the selected one.
pub open spec fn first_pair(packets: Seq<DecodedPacket>, pid: u64, source: PacketSource, selected_id: u64) -> Option<int> {
    if exists|i: int| 0 <= i < packets.len() && #[trigger] pairs_with(packets[i], pid, source, selected_id) {
        Some(choose|i: int|
            0 <= i < packets.len() && pairs_with(packets[i], pid, source, selected_id) && forall|j: int|
                0 <= j < i ==> !#[trigger] pairs_with(packets[j], pid, source, selected_id))
    } else {
        None
    }
}

/// A pairing packet with none before it is the first one.
proof fn lemma_first_pair(packets: Seq<DecodedPacket>, pid: u64, source: PacketSource, selected_id: u64, i: int)
    requires
        0 <= i < packets.len(),
        pairs_with(packets[i], pid, source, selected_id),
        forall|j: int| 0 <= j < i ==> !#[trigger] pairs_with(packets[j], pid, source, selected_id),
    ensures
        first_pair(packets, pid, source, selected_id) == Some(i),
{
    let k = choose|k: int|
        0 <= k < packets.len() && pairs_with(packets[k], pid, source, selected_id) && forall|j: int|
            0 <= j < k ==> !#[trigger] pairs_with(packets[j], pid, source, selected_id);
    assert(0 <= k < packets.len() && pairs_with(packets[k], pid, source, selected_id) && forall|j: int|
        0 <= j < k ==> !#[trigger] pairs_with(packets[j], pid, source, selected_id));
    if k < i {
    } else if k > i {
    }
}

/// Without a pairing packet there is no first one.
proof fn lemma_no_pair(packets: Seq<DecodedPacket>, pid: u64, source: PacketSource, selected_id: u64)
    requires
        forall|j: int| 0 <= j < packets.len() ==> !#[trigger] pairs_with(packets[j], pid, source, selected_id),
    ensures
        first_pair(packets, pid, source, selected_id) is None,
{
}


/// How many lines of a packet's text the inspector shows at once.
pub const MAX_INSPECTOR_LINES: usize = 200;

/// The part of a packet's text the inspector shows: its first
/// `MAX_INSPECTOR_LINES` lines, and a newline and `…` when there are more.
pub fn inspector_preview(text: &str) -> (r: String)
    ensures
        r@ == join_with(at_most(lines(text@), MAX_INSPECTOR_LINES as nat), '\n') + if lines(
            text@,
        ).len() > MAX_INSPECTOR_LINES {
            seq!['\n', '…']
        } else {
            Seq::<char>::empty()
        },
{
    let (mut out, more) = first_lines(&to_chars(text), MAX_INSPECTOR_LINES);
    let ghost shown = out@;
    if more {
        out.push('\n');
        out.push('…');
    }
    assert(out@ =~= shown + if more {
        seq!['\n', '…']
    } else {
        Seq::<char>::empty()
    });
    string_from_chars(&out)
}


/// The index of the first packet with id `id`, if any.
pub open spec fn first_with_id(packets: Seq<DecodedPacket>, id: u64) -> Option<int> {
    if exists|i: int| 0 <= i < packets.len() && #[trigger] packets[i].id == id {
        Some(choose|i: int|
            0 <= i < packets.len() && packets[i].id == id && forall|j: int|
                0 <= j < i ==> #[trigger] packets[j].id != id)
    } else {
        None
    }
}

/// A packet with id `id` and none before it is the first one.
proof fn lemma_first_with_id(packets: Seq<DecodedPacket>, id: u64, i: int)
    requires
        0 <= i < packets.len(),
        packets[i].id == id,
        forall|j: int| 0 <= j < i ==> #[trigger] packets[j].id != id,
    ensures
        first_with_id(packets, id) == Some(i),
{
    let k = choose|k: int|
        0 <= k < packets.len() && packets[k].id == id && forall|j: int|
            0 <= j < k ==> #[trigger] packets[j].id != id;
    assert(0 <= k < packets.len() && packets[k].id == id && forall|j: int|
        0 <= j < k ==> #[trigger] packets[j].id != id);
    if k < i {
        assert(packets[k].id != id);
    } else if k > i {
        assert(packets[i].id != id);
    }
}

/// The index of the selected packet: the first packet whose id is
/// `selected`; `None` when nothing is selected or no packet has that id.
pub fn selected_packet(packets: &Vec<DecodedPacket>, selected: Option<u64>) -> (r: Option<usize>)
    ensures
        match r {
            Some(i) => i < packets@.len() && (selected matches Some(id) && first_with_id(packets@, id)
                == Some(i as int)),
            None => selected matches Some(id) ==> first_with_id(packets@, id) is None,
        },
{
    let id = match selected {
        Some(id) => id,
        None => return None,
    };
    for i in 0..packets.len()
        invariant
            selected == Some(id),
            forall|j: int| 0 <= j < i ==> #[trigger] packets@[j].id != id,
    {
        if packets[i].id == id {
            proof {
                lemma_first_with_id(packets@, id, i as int);
            }
            return Some(i);
        }
    }
    None
}

/// How a packet's source is written: `Client` or `Server`.
pub open spec fn source_label(s: PacketSource) -> Seq<char> {
    match s {
        PacketSource::Client => seq!['C', 'l', 'i', 'e', 'n', 't'],
        PacketSource::Server => seq!['S', 'e', 'r', 'v', 'e', 'r'],
    }
}

/// The name of a packet's source.
pub fn source_text(s: PacketSource) -> (r: String)
    ensures
        r@ == source_label(s),
{
    let mut out: Vec<char> = Vec::new();
    match s {
        PacketSource::Client => {
            out.push('C');
            out.push('l');
            out.push('i');
            out.push('e');
            out.push('n');
            out.push('t');
        },
        PacketSource::Server => {
            out.push('S');
            out.push('e');
            out.push('r');
            out.push('v');
            out.push('e');
            out.push('r');
        },
    }
    assert(out@ =~= source_label(s));
    string_from_chars(&out)
}

/// What the inspector's info tab shows of a packet.
#[derive(Clone, Debug)]
pub struct PacketInfoCache {
    pub name: String,
    pub cmd_id: String,
    pub source: String,
    pub pid: String,
    pub cs_sc: String,
    pub body_len: String,
    pub raw_head_base64: String,
    /// The head read as protobuf fields without a schema, as pretty JSON.
    pub decoded_head: String,
}

/// The info tab of the packet at `index`, where the protocol table knows the
/// name `known` for its command id: its shown name, command id, source,
/// packet id, the packet paired with it, its body length in bytes, its head
/// in base64 and its head decoded as raw protobuf fields, as pretty JSON (the
/// empty object when the head does not decode).
pub fn packet_info(packets: &Vec<DecodedPacket>, index: usize, known: Option<String>) -> (info: PacketInfoCache)
    requires
        index < packets@.len(),
        packets@[index as int].head@.len() <= isize::MAX,
    ensures
        ({
            let p = packets@[index as int];
            let pid = head_pid(p.head@);
            &&& info.name@ == shown_name(p.name, known, p.cmd_id)
            &&& info.cmd_id@ == decimal(p.cmd_id as nat)
            &&& info.source@ == source_label(p.source)
            &&& info.pid@ == decimal(pid as nat)
            &&& info.cs_sc@ == paired_name(packets@, pid, p.source, p.id)
            &&& info.body_len@ == decimal(p.body@.len()) + seq![' ', 'b', 'y', 't', 'e', 's']
            &&& info.raw_head_base64@ == base64_standard(p.head@)
            &&& info.decoded_head@ == raw_json_pretty(
                RawValueView::Message(
                    match decode_tree(p.head@, 0) {
                        Some(t) => t,
                        None => Seq::empty(),
                    },
                ),
            )
        }),
{
    let p = &packets[index];
    let pid = packet_head_pid(p.head.as_slice());
    let mut body_len: Vec<char> = Vec::new();
    push_decimal(&mut body_len, p.body.len() as u64);
    body_len.push(' ');
    body_len.push('b');
    body_len.push('y');
    body_len.push('t');
    body_len.push('e');
    body_len.push('s');
    assert(body_len@ =~= decimal(p.body@.len()) + seq![' ', 'b', 'y', 't', 'e', 's']);
    PacketInfoCache {
        name: resolve_name(&p.name, known, p.cmd_id),
        cmd_id: decimal_string(p.cmd_id as u64),
        source: source_text(p.source),
        pid: decimal_string(pid),
        cs_sc: paired_packet_name(packets, pid, p.source, p.id),
        body_len: string_from_chars(&body_len),
        raw_head_base64: base64_encode(p.head.as_slice()),
        decoded_head: raw_protobuf_json(p.head.as_slice()),
    }
}

/// The JSON object the inspector shows for a packet without a decoded body:
/// its command id as a number and its source and hex head and body as
/// strings, keyed `cmd_id`, `source`, `head_hex` and `body_hex`.
pub open spec fn packet_fields_object(
    cmd_id: u32,
    source: Seq<char>,
    head_hex: Seq<char>,
    body_hex: Seq<char>,
) -> serde_json::Value {
    json_object(
        seq![
            ("cmd_id"@, json_number(cmd_id as u64)),
            ("source"@, json_string(source)),
            ("head_hex"@, json_string(head_hex)),
            ("body_hex"@, json_string(body_hex)),
        ],
    )
}

/// The pretty JSON text of `packet_fields_object`.
fn packet_fields_json(cmd_id: u32, source: String, head_hex: String, body_hex: String) -> (r: String)
    ensures
        r@ == json_pretty(packet_fields_object(cmd_id, source@, head_hex@, body_hex@)),
{
    let ghost (sv, hv, bv) = (source@, head_hex@, body_hex@);
    let mut entries: Vec<(String, serde_json::Value)> = Vec::new();
    entries.push(("cmd_id".to_owned(), number_value(cmd_id as u64)));
    entries.push(("source".to_owned(), string_value(source)));
    entries.push(("head_hex".to_owned(), string_value(head_hex)));
    entries.push(("body_hex".to_owned(), string_value(body_hex)));
    assert(entries@.map_values(|e: (String, serde_json::Value)| (e.0@, e.1)) =~= seq![
        ("cmd_id"@, json_number(cmd_id as u64)),
        ("source"@, json_string(sv)),
        ("head_hex"@, json_string(hv)),
        ("body_hex"@, json_string(bv)),
    ]);
    pretty_json(&object_value(entries))
}

/// The text the inspector shows for the selected packet (see
/// `selected_packet`): its decoded body JSON, else a JSON object of its
/// command id, source and hex head and body; empty when nothing is selected.
pub fn inspector_text(packets: &Vec<DecodedPacket>, selected: Option<u64>) -> (r: String)
    ensures
        r@ == match selected {
            Some(id) => match first_with_id(packets@, id) {
                Some(i) => match packets@[i].body_json {
                    Some(j) => j@,
                    None => json_pretty(
                        packet_fields_object(
                            packets@[i].cmd_id,
                            source_label(packets@[i].source),
                            hex_spaced(packets@[i].head@),
                            hex_spaced(packets@[i].body@),
                        ),
                    ),
                },
                None => Seq::<char>::empty(),
            },
            None => Seq::<char>::empty(),
        },
{
    match selected_packet(packets, selected) {
        None => String::new(),
        Some(i) => {
            let p = &packets[i];
            match &p.body_json {
                Some(j) => j.clone(),
                None => {
                    let source = source_text(p.source);
                    let head = hex_encode(p.head.as_slice());
                    let body = hex_encode(p.body.as_slice());
                    packet_fields_json(p.cmd_id, source, head, body)
                },
            }
        },
    }
}

/// What is sent off to decode a packet again: its id, command id and body.
#[derive(Clone, Debug)]
pub struct RedecodePacket {
    pub id: u64,
    pub cmd_id: u32,
    pub body: Vec<u8>,
}

/// Whether `r` is what is sent off to decode `p` again.
pub open spec fn snapshot_of(r: RedecodePacket, p: DecodedPacket) -> bool {
    r.id == p.id && r.cmd_id == p.cmd_id && r.body@ == p.body@
}

/// The packets as they are sent off to be decoded again, in order.
pub fn redecode_snapshot(packets: &Vec<DecodedPacket>) -> (out: Vec<RedecodePacket>)
    ensures
        out@.len() == packets@.len(),
        forall|i: int| 0 <= i < packets@.len() ==> snapshot_of(#[trigger] out@[i], packets@[i]),
{
    let mut out: Vec<RedecodePacket> = Vec::new();
    for i in 0..packets.len()
        invariant
            out@.len() == i,
            forall|j: int| 0 <= j < i ==> snapshot_of(#[trigger] out@[j], packets@[j]),
    {
        let p = &packets[i];
        let body = p.body.clone();
        assert(body@ =~= p.body@);
        let r = RedecodePacket { id: p.id, cmd_id: p.cmd_id, body };
        assert(snapshot_of(r, packets@[i as int]));
        out.push(r);
    }
    out
}

/// A packet decoded again: its id, and its new name and body JSON.
#[derive(Clone, Debug)]
pub struct RedecodeResult {
    pub id: u64,
    pub name: Option<String>,
    pub body_json: Option<String>,
}

/// For each packet id among `results`, the last result with that id.
pub open spec fn results_by_id(results: Seq<RedecodeResult>) -> Map<u64, RedecodeResult>
    decreases results.len(),
{
    if results.len() == 0 {
        Map::empty()
    } else {
        results_by_id(results.drop_last()).insert(results.last().id, results.last())
    }
}

/// Whether no packet before position `i` has the id of the packet at `i`.
pub open spec fn first_of_its_id(packets: Seq<DecodedPacket>, i: int) -> bool {
    forall|j: int| 0 <= j < i ==> #[trigger] packets[j].id != packets[i].id
}

/// `q` is `p` with the name and body JSON of `r`.
pub open spec fn redecoded(q: DecodedPacket, p: DecodedPacket, r: RedecodeResult) -> bool {
    &&& q.name == r.name
    &&& q.body_json == r.body_json
    &&& q.id == p.id
    &&& q.cmd_id == p.cmd_id
    &&& q.source == p.source
    &&& q.head == p.head
    &&& q.body == p.body
    &&& q.request_id == p.request_id
    &&& q.custom_packet == p.custom_packet
}

/// Takes the new names and body JSON of packets decoded again: each packet
/// that is the first with its id, and for whose id there is a result, takes
/// the last result with that id; every other packet stays as it was.
pub fn apply_redecode_results(packets: &mut Vec<DecodedPacket>, results: Vec<RedecodeResult>)
    ensures
        final(packets)@.len() == old(packets)@.len(),
        forall|i: int|
            0 <= i < old(packets)@.len() ==> if results_by_id(results@).contains_key(
                old(packets)@[i].id,
            ) && first_of_its_id(old(packets)@, i) {
                redecoded(
                    #[trigger] final(packets)@[i],
                    old(packets)@[i],
                    results_by_id(results@)[old(packets)@[i].id],
                )
            } else {
                final(packets)@[i] == old(packets)@[i]
            },
{
    let ghost all = results@;
    let ghost target = results_by_id(all);
    let mut rest = results;
    let mut by_id: HashMap<u64, RedecodeResult> = HashMap::new();
    while rest.len() > 0
        invariant
            rest@ == all.take(rest@.len() as int),
            rest@.len() <= all.len(),
            target == results_by_id(all),
            target =~= results_by_id(rest@).union_prefer_right(by_id@),
        decreases rest@.len(),
    {
        let ghost before = rest@;
        let ghost m = by_id@;
        let r = rest.pop().unwrap();
        assert(before.drop_last() =~= rest@);
        assert(results_by_id(before) == results_by_id(rest@).insert(r.id, r));
        if !by_id.contains_key(&r.id) {
            by_id.insert(r.id, r);
        }
        assert(target =~= results_by_id(rest@).union_prefer_right(by_id@)) by {
            assert(results_by_id(before).union_prefer_right(m) =~= results_by_id(rest@).union_prefer_right(
                by_id@,
            ));
        }
        assert(rest@ =~= all.take(rest@.len() as int));
    }
    assert(results_by_id(rest@) =~= Map::<u64, RedecodeResult>::empty());
    assert(target =~= by_id@);
    let ghost orig = packets@;
    let mut i: usize = 0;
    while i < packets.len()
        invariant
            i <= orig.len(),
            packets@.len() == orig.len(),
            target == results_by_id(all),
            forall|k: u64|
                #![trigger by_id@.contains_key(k)]
                by_id@.contains_key(k) <==> (target.contains_key(k) && forall|j: int|
                    0 <= j < i ==> #[trigger] orig[j].id != k),
            forall|k: u64| #[trigger] by_id@.contains_key(k) ==> by_id@[k] == target[k],
            forall|j: int|
                0 <= j < i ==> if target.contains_key(orig[j].id) && first_of_its_id(orig, j) {
                    redecoded(#[trigger] packets@[j], orig[j], target[orig[j].id])
                } else {
                    packets@[j] == orig[j]
                },
            forall|j: int| i <= j < orig.len() ==> #[trigger] packets@[j] == orig[j],
        decreases orig.len() - i,
    {
        let id = packets[i].id;
        let ghost m = by_id@;
        assert(packets@[i as int] == orig[i as int]);
        match by_id.remove(&id) {
            Some(r) => {
                assert(m.contains_key(id));
                assert(first_of_its_id(orig, i as int));
                packets[i].name = r.name;
                packets[i].body_json = r.body_json;
            },
            None => {
                assert(!m.contains_key(id));
                assert(!(target.contains_key(orig[i as int].id) && first_of_its_id(orig, i as int)));
            },
        }
        assert(by_id@ =~= m.remove(id));
        i += 1;
    }
}

/// Filters that agree below `n` keep the same indices below `n`.
pub proof fn lemma_indices_upto_agree(n: nat, a: spec_fn(int) -> bool, b: spec_fn(int) -> bool)
    requires
        forall|i: int| 0 <= i < n ==> #[trigger] a(i) == b(i),
    ensures
        indices_upto(n, a) == indices_upto(n, b),
    decreases n,
{
    if n > 0 {
        lemma_indices_upto_agree((n - 1) as nat, a, b);
    }
}

/// The indices below `n` that `keep` accepts are listed in increasing order,
/// and an index below `n` is listed exactly when `keep` accepts it.
pub proof fn lemma_indices_upto_members(n: nat, keep: spec_fn(int) -> bool)
    requires
        n <= usize::MAX + 1,
    ensures
        forall|i: int, j: int|
            0 <= i < j < indices_upto(n, keep).len() ==> #[trigger] indices_upto(n, keep)[i]
                < #[trigger] indices_upto(n, keep)[j],
        forall|k: int| 0 <= k < indices_upto(n, keep).len() ==> (#[trigger] indices_upto(n, keep)[k]) < n,
        forall|i: int| 0 <= i < n ==> (#[trigger] indices_upto(n, keep).contains(i as usize) <==> keep(i)),
    decreases n,
{
    if n > 0 {
        let m = (n - 1) as nat;
        lemma_indices_upto_members(m, keep);
        let before = indices_upto(m, keep);
        let now = indices_upto(n, keep);
        assert forall|i: int| 0 <= i < n implies (#[trigger] now.contains(i as usize) <==> keep(i)) by {
            if i < m {
                assert(before.contains(i as usize) <==> keep(i));
                if before.contains(i as usize) {
                    let k = choose|k: int| 0 <= k < before.len() && before[k] == i as usize;
                    assert(now[k] == i as usize);
                }
                if now.contains(i as usize) {
                    let k = choose|k: int| 0 <= k < now.len() && now[k] == i as usize;
                    if k < before.len() {
                        assert(before[k] == i as usize);
                    }
                }
            } else {
                if keep(i) {
                    assert(now[now.len() - 1] == i as usize);
                } else {
                    if now.contains(i as usize) {
                        let k = choose|k: int| 0 <= k < now.len() && now[k] == i as usize;
                        assert(before[k] < m);
                    }
                }
            }
        }
    }
}

/// A search shows the packet at index `i` exactly when its command id is not
/// excluded and the lower-case search text is empty or is contained in the
/// packet's command id, in its lower-case name, or in its body in lower
/// case; the shown packets are listed in capture order.
pub proof fn lemma_packet_search_finds(
    packets: Seq<DecodedPacket>,
    rows: Seq<PacketRowCache>,
    excluded: Set<u32>,
    input: Seq<char>,
    i: int,
)
    requires
        0 <= i < packets.len(),
        i < rows.len(),
        packets.len() <= usize::MAX,
    ensures
        indices_upto(packets.len(), search_keep(packets, rows, excluded, lowercase(input))).contains(i as usize)
            <==> {
            &&& !excluded.contains(packets[i].cmd_id)
            &&& {
                ||| lowercase(input).len() == 0
                ||| contains_text(rows[i].cmd_id_text@, lowercase(input))
                ||| contains_text(rows[i].name_lower@, lowercase(input))
                ||| (packets[i].body_json matches Some(b) && contains_text(lowercase(b@), lowercase(input)))
            }
        },
        forall|a: int, b: int|
            0 <= a < b < indices_upto(packets.len(), search_keep(packets, rows, excluded, lowercase(input))).len()
                ==> #[trigger] indices_upto(packets.len(), search_keep(packets, rows, excluded, lowercase(input)))[a]
                < #[trigger] indices_upto(packets.len(), search_keep(packets, rows, excluded, lowercase(input)))[b],
{
    lemma_indices_upto_members(packets.len(), search_keep(packets, rows, excluded, lowercase(input)));
}

/// The send dialog shows entry `i` exactly when the lower-case search text is
/// empty or is contained in the entry's search name or in its command id.
pub proof fn lemma_send_search_finds(names: Seq<PacketNameEntry>, input: Seq<char>, i: int)
    requires
        0 <= i < names.len(),
        names.len() <= usize::MAX,
    ensures
        indices_upto(names.len(), send_keep(names, lowercase(input))).contains(i as usize) <==> (
            lowercase(input).len() == 0
            || contains_text(names[i].search_name@, lowercase(input))
            || contains_text(names[i].cmd_id_text@, lowercase(input))),
{
    lemma_indices_upto_members(names.len(), send_keep(names, lowercase(input)));
}

/// Without a search, the packet at index `i` is listed exactly when its
/// command id is not excluded.
pub proof fn lemma_base_lists(packets: Seq<DecodedPacket>, excluded: Set<u32>, i: int)
    requires
        0 <= i < packets.len(),
        packets.len() <= usize::MAX,
    ensures
        indices_upto(packets.len(), base_keep(packets, excluded)).contains(i as usize)
            <==> !excluded.contains(packets[i].cmd_id),
{
    lemma_indices_upto_members(packets.len(), base_keep(packets, excluded));
}

/// The index lists of the packet view: the packets a search shows, and the
/// packets shown around a packet whatever the search; each is rebuilt when
/// marked dirty.
pub struct PacketLists {
    pub filtered_idx: Vec<usize>,
    pub filtered_query: String,
    pub filtered_dirty: bool,
    pub base_idx: Vec<usize>,
    pub base_dirty: bool,
}

impl PacketLists {
    /// Every list not marked dirty is what a rebuild would give for
    /// `packets`, their rows and the excluded command ids.
    pub open spec fn fresh_for(
        &self,
        packets: Seq<DecodedPacket>,
        rows: Seq<PacketRowCache>,
        excluded: Set<u32>,
    ) -> bool {
        &&& !self.filtered_dirty ==> self.filtered_idx@ == indices_upto(
            packets.len(),
            search_keep(packets, rows, excluded, self.filtered_query@),
        )
        &&& !self.base_dirty ==> self.base_idx@ == indices_upto(
            packets.len(),
            base_keep(packets, excluded),
        )
    }

    /// Empty lists for a view without packets and without a search.
    pub fn new() -> (l: Self)
        ensures
            l.filtered_idx@.len() == 0,
            l.filtered_query@.len() == 0,
            !l.filtered_dirty,
            l.base_idx@.len() == 0,
            !l.base_dirty,
            forall|rows: Seq<PacketRowCache>, excluded: Set<u32>|
                #[trigger] l.fresh_for(Seq::empty(), rows, excluded),
    {
        PacketLists {
            filtered_idx: Vec::new(),
            filtered_query: String::new(),
            filtered_dirty: false,
            base_idx: Vec::new(),
            base_dirty: false,
        }
    }

    /// Marks both lists for a rebuild (the packets, the exclusions or the
    /// names changed).
    pub fn invalidate(&mut self)
        ensures
            final(self).filtered_idx@.len() == 0,
            final(self).filtered_dirty,
            final(self).base_idx@.len() == 0,
            final(self).base_dirty,
            final(self).filtered_query@ == old(self).filtered_query@,
    {
        self.filtered_idx.clear();
        self.filtered_dirty = true;
        self.base_idx.clear();
        self.base_dirty = true;
    }

    /// The lists after every packet was removed: the search list waits for a
    /// rebuild, the base list is empty.
    pub fn clear(&mut self)
        ensures
            final(self).filtered_idx@.len() == 0,
            final(self).filtered_dirty,
            final(self).base_idx@.len() == 0,
            !final(self).base_dirty,
            final(self).filtered_query@ == old(self).filtered_query@,
            forall|rows: Seq<PacketRowCache>, excluded: Set<u32>|
                #[trigger] final(self).fresh_for(Seq::empty(), rows, excluded),
    {
        self.filtered_idx.clear();
        self.filtered_dirty = true;
        self.base_idx.clear();
        self.base_dirty = false;
    }

    /// Rebuilds the search list for the search text `input` (compared in
    /// lower case), unless it is up to date for that search.
    pub fn recompute_filtered(
        &mut self,
        packets: &Vec<DecodedPacket>,
        rows: &Vec<PacketRowCache>,
        excluded: &HashSet<u32>,
        input: &str,
    )
        ensures
            final(self).filtered_query@ == lowercase(input@),
            !final(self).filtered_dirty,
            final(self).base_idx@ == old(self).base_idx@,
            final(self).base_dirty == old(self).base_dirty,
            if !old(self).filtered_dirty && old(self).filtered_query@ == lowercase(input@) {
                final(self).filtered_idx@ == old(self).filtered_idx@
            } else {
                final(self).filtered_idx@ == indices_upto(
                    packets@.len(),
                    search_keep(packets@, rows@, excluded@, lowercase(input@)),
                )
            },
            old(self).fresh_for(packets@, rows@, excluded@) ==> final(self).fresh_for(
                packets@,
                rows@,
                excluded@,
            ),
    {
        let query = to_lower(input);
        if !self.filtered_dirty && query == self.filtered_query {
            return;
        }
        self.filtered_idx = filtered_indices(packets, rows, excluded, input);
        self.filtered_query = query;
        self.filtered_dirty = false;
    }

    /// Rebuilds the base list when it is marked dirty.
    pub fn recompute_base(&mut self, packets: &Vec<DecodedPacket>, excluded: &HashSet<u32>)
        ensures
            !final(self).base_dirty,
            final(self).filtered_idx@ == old(self).filtered_idx@,
            final(self).filtered_query@ == old(self).filtered_query@,
            final(self).filtered_dirty == old(self).filtered_dirty,
            if old(self).base_dirty {
                final(self).base_idx@ == indices_upto(packets@.len(), base_keep(packets@, excluded@))
            } else {
                final(self).base_idx@ == old(self).base_idx@
            },
            forall|rows: Seq<PacketRowCache>|
                #[trigger] old(self).fresh_for(packets@, rows, excluded@) ==> final(self).fresh_for(
                    packets@,
                    rows,
                    excluded@,
                ),
    {
        if !self.base_dirty {
            return;
        }
        self.base_idx = base_indices(packets, excluded);
        self.base_dirty = false;
    }

    /// Takes in the packet just appended as the last of `packets` (with its
    /// row the last of `rows`): a list that is up to date gets its index when
    /// the packet belongs in it.
    pub fn note_arrival(
        &mut self,
        packets: &Vec<DecodedPacket>,
        rows: &Vec<PacketRowCache>,
        excluded: &HashSet<u32>,
    )
        requires
            packets@.len() > 0,
        ensures
            ({
                let index = (packets@.len() - 1) as usize;
                let kept = !excluded@.contains(packets@[index as int].cmd_id);
                &&& final(self).filtered_idx@ == if !old(self).filtered_dirty && kept && shown_by(
                    packets@,
                    rows@,
                    index as int,
                    old(self).filtered_query@,
                ) {
                    old(self).filtered_idx@.push(index)
                } else {
                    old(self).filtered_idx@
                }
                &&& final(self).base_idx@ == if !old(self).base_dirty && kept {
                    old(self).base_idx@.push(index)
                } else {
                    old(self).base_idx@
                }
            }),
            final(self).filtered_query@ == old(self).filtered_query@,
            final(self).filtered_dirty == old(self).filtered_dirty,
            final(self).base_dirty == old(self).base_dirty,
            rows@.len() == packets@.len() && old(self).fresh_for(
                packets@.drop_last(),
                rows@.drop_last(),
                excluded@,
            ) ==> final(self).fresh_for(packets@, rows@, excluded@),
    {
        let index = packets.len() - 1;
        let excluded_now = excluded.contains(&packets[index].cmd_id);
        if !self.filtered_dirty && !excluded_now && packet_matches_index(
            packets,
            rows,
            index,
            self.filtered_query.as_str(),
        ) {
            self.filtered_idx.push(index);
        }
        if !self.base_dirty && !excluded_now {
            self.base_idx.push(index);
        }
        proof {
            let ps = packets@;
            let rs = rows@;
            let q = self.filtered_query@;
            if rs.len() == ps.len() {
                let n = ps.len();
                let a = search_keep(ps.drop_last(), rs.drop_last(), excluded@, q);
                let b = search_keep(ps, rs, excluded@, q);
                assert forall|i: int| 0 <= i < n - 1 implies #[trigger] a(i) == b(i) by {
                    assert(ps.drop_last()[i] == ps[i]);
                    assert(rs.drop_last()[i] == rs[i]);
                }
                lemma_indices_upto_agree((n - 1) as nat, a, b);
                let c = base_keep(ps.drop_last(), excluded@);
                let d = base_keep(ps, excluded@);
                assert forall|i: int| 0 <= i < n - 1 implies #[trigger] c(i) == d(i) by {
                    assert(ps.drop_last()[i] == ps[i]);
                }
                lemma_indices_upto_agree((n - 1) as nat, c, d);
            }
        }
    }
}

} // verus!
