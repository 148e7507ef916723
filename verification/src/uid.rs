//! Player data as the game reports it (profile dumps, the owned-avatar list
//! and the bag), and the assembly of the owned avatars into the form the
//! profile view shows.

use vstd::prelude::*;

use crate::text::{decimal, parse_u64, parse_u64_seq, push_decimal, string_from_chars, to_chars, trim_chars, trim_seq};

verus! {

// ---------------------------------------------------------------------------
// Reported data
// ---------------------------------------------------------------------------

/// A profile dump.
#[derive(Clone, Debug, Default)]
pub struct UidDump {
    pub detail_info: DetailInfo,
}

/// A player's public profile.
#[derive(Clone, Debug, Default)]
pub struct DetailInfo {
    pub uid: u64,
    pub nickname: String,
    pub level: u32,
    pub world_level: u32,
    pub signature: String,
    pub friend_count: u32,
    pub birthday: Option<u32>,
    pub head_icon: u32,
    pub platform_type: u32,
    pub record_info: RecordInfo,
    pub display_avatar_list: Vec<DisplayAvatar>,
    pub assist_avatar_list: Vec<DisplayAvatar>,
}

/// A player's collection counts.
#[derive(Clone, Copy, Debug, Default)]
pub struct RecordInfo {
    pub achievement_count: u32,
    pub avatar_count: u32,
    pub lightcone_count: u32,
    pub su_count: u32,
    pub book_count: u32,
    pub music_count: u32,
}

/// An avatar as a profile shows it.
#[derive(Clone, Debug, Default)]
pub struct DisplayAvatar {
    pub avatar_id: u32,
    pub level: u32,
    pub promotion: u32,
    pub rank: u32,
    pub pos: u32,
    pub enhanced_id: Option<u32>,
    pub skilltree_list: Vec<SkillTreePoint>,
    pub equipment: Option<Equipment>,
    pub relic_list: Vec<RelicItem>,
}

/// The level of one skill-tree point.
#[derive(Clone, Copy, Debug, Default, PartialEq, Eq)]
pub struct SkillTreePoint {
    pub point_id: u32,
    pub level: u32,
}

/// An equipped light cone.
#[derive(Clone, Copy, Debug, Default, PartialEq, Eq)]
pub struct Equipment {
    pub tid: u32,
    pub level: u32,
    pub promotion: u32,
    pub rank: u32,
}

/// The rank a light cone has when the reported data leaves it out.
pub fn default_rank() -> (r: u32)
    ensures
        r == 1,
{
    1
}

/// An equipped relic.
#[derive(Clone, Debug, Default)]
pub struct RelicItem {
    pub tid: u32,
    pub level: u32,
    pub main_affix_id: u32,
    pub slot: u32,
    pub sub_affix_list: Vec<SubAffix>,
}

/// The main affix a relic has when the reported data leaves it out.
pub fn default_main_affix() -> (r: u32)
    ensures
        r == 1,
{
    1
}

/// A relic sub-stat: which one, how many rolls, and the roll steps.
#[derive(Clone, Copy, Debug, Default, PartialEq, Eq)]
pub struct SubAffix {
    pub affix_id: u32,
    pub cnt: u32,
    pub step: u32,
}

/// The owned-avatar list.
#[derive(Clone, Debug, Default)]
pub struct AvatarDataRsp {
    pub avatar_list: Vec<OwnedAvatar>,
    pub avatar_path_data_info_list: Vec<AvatarPathData>,
}

/// An owned avatar.
#[derive(Clone, Copy, Debug, Default)]
pub struct OwnedAvatar {
    pub base_avatar_id: u32,
    pub cur_multi_path_avatar_type: u32,
    pub level: u32,
    pub promotion: u32,
}

/// The build of one path of an avatar.
#[derive(Clone, Debug, Default)]
pub struct AvatarPathData {
    pub avatar_id: u32,
    pub rank: u32,
    pub path_equipment_id: u32,
    pub unk_enhanced_id: Option<u32>,
    pub equip_relic_list: Vec<EquipRelic>,
    pub avatar_path_skill_tree: Vec<PathSkillNode>,
}

/// A relic worn in a slot.
#[derive(Clone, Copy, Debug, Default)]
pub struct EquipRelic {
    pub relic_unique_id: u32,
    pub slot: u32,
}

/// The level of the skill-tree node at an anchor.
#[derive(Clone, Copy, Debug, Default)]
pub struct PathSkillNode {
    pub anchor_type: u32,
    pub level: u32,
}

/// The bag.
#[derive(Clone, Debug, Default)]
pub struct BagRsp {
    pub update_relics_list: Vec<BagRelic>,
    pub update_equipments_list: Vec<BagEquipment>,
}

/// A relic in the bag.
#[derive(Clone, Debug)]
pub struct BagRelic {
    pub unique_id: u32,
    pub tid: u32,
    pub level: u32,
    pub main_affix_id: u32,
    pub belong_avatar_id: u32,
    pub sub_affix_list: Vec<SubAffix>,
}

/// A light cone in the bag.
#[derive(Clone, Copy, Debug)]
pub struct BagEquipment {
    pub unique_id: u32,
    pub tid: u32,
    pub level: u32,
    pub promotion: u32,
    pub rank: u32,
    pub belong_avatar_id: u32,
}

// ---------------------------------------------------------------------------
// Skill-tree anchors
// ---------------------------------------------------------------------------

/// A skill-tree point of an avatar and the anchor it sits at ("Point01", ...).
#[derive(Clone, Debug)]
pub struct TreeAnchor {
    pub id: u32,
    pub anchor: String,
}

/// The skill-tree points of an avatar, for its normal and its enhanced form.
#[derive(Clone, Debug)]
pub struct AvatarTrees {
    pub avatar_id: u32,
    pub skill_trees: Vec<TreeAnchor>,
    pub skill_trees_enhanced: Vec<TreeAnchor>,
}

/// The name of anchor `n`: "Point" and `n` in at least two digits.
pub open spec fn anchor_text(n: u32) -> Seq<char> {
    seq!['P', 'o', 'i', 'n', 't'] + if n < 10 {
        seq!['0'] + decimal(n as nat)
    } else {
        decimal(n as nat)
    }
}

/// The name of anchor `n` (`format!("Point{:02}", n)`).
pub fn anchor_label(n: u32) -> (s: String)
    ensures
        s@ == anchor_text(n),
{
    let mut out: Vec<char> = Vec::new();
    out.push('P');
    out.push('o');
    out.push('i');
    out.push('n');
    out.push('t');
    if n < 10 {
        out.push('0');
    }
    push_decimal(&mut out, n as u64);
    assert(out@ =~= anchor_text(n));
    string_from_chars(&out)
}

/// The tree list used for an avatar: the enhanced one when the avatar is
/// enhanced and has one.
pub open spec fn trees_for(t: AvatarTrees, enhanced: bool) -> Seq<TreeAnchor> {
    if enhanced && t.skill_trees_enhanced@.len() > 0 {
        t.skill_trees_enhanced@
    } else {
        t.skill_trees@
    }
}

impl AvatarTrees {
    /// The tree list used for this avatar: the enhanced trees when the avatar
    /// is enhanced and has any, else the normal ones.
    pub fn skill_trees_for(&self, enhanced: bool) -> (r: &Vec<TreeAnchor>)
        ensures
            r@ == trees_for(*self, enhanced),
    {
        if enhanced && !self.skill_trees_enhanced.is_empty() {
            &self.skill_trees_enhanced
        } else {
            &self.skill_trees
        }
    }
}

// ---------------------------------------------------------------------------
// Owned avatars
// ---------------------------------------------------------------------------

/// The avatar id an owned avatar currently plays as: its current path when
/// it has one, else its base id.
pub open spec fn active_id(base: OwnedAvatar) -> u32 {
    if base.cur_multi_path_avatar_type != 0 {
        base.cur_multi_path_avatar_type
    } else {
        base.base_avatar_id
    }
}

/// The position of the last path build of avatar `id` (a later build of the
/// same id replaces an earlier one).
pub open spec fn last_path_index(paths: Seq<AvatarPathData>, id: u32) -> Option<int>
    decreases paths.len(),
{
    if paths.len() == 0 {
        None
    } else if paths.last().avatar_id == id {
        Some(paths.len() - 1)
    } else {
        last_path_index(paths.drop_last(), id)
    }
}

/// The position of the last bag relic with unique id `id`.
pub open spec fn last_relic_index(relics: Seq<BagRelic>, id: u32) -> Option<int>
    decreases relics.len(),
{
    if relics.len() == 0 {
        None
    } else if relics.last().unique_id == id {
        Some(relics.len() - 1)
    } else {
        last_relic_index(relics.drop_last(), id)
    }
}

/// The position of the last bag light cone with unique id `id`.
pub open spec fn last_equipment_index(eqs: Seq<BagEquipment>, id: u32) -> Option<int>
    decreases eqs.len(),
{
    if eqs.len() == 0 {
        None
    } else if eqs.last().unique_id == id {
        Some(eqs.len() - 1)
    } else {
        last_equipment_index(eqs.drop_last(), id)
    }
}

/// The position of the first bag light cone worn by avatar `id`.
pub open spec fn first_worn_index(eqs: Seq<BagEquipment>, id: u32) -> Option<int>
    decreases eqs.len(),
{
    if eqs.len() == 0 {
        None
    } else if eqs[0].belong_avatar_id == id {
        Some(0)
    } else {
        match first_worn_index(eqs.drop_first(), id) {
            Some(k) => Some(k + 1),
            None => None,
        }
    }
}

/// The position of the first tree list of avatar `id`.
pub open spec fn first_trees_index(all: Seq<AvatarTrees>, id: u32) -> Option<int>
    decreases all.len(),
{
    if all.len() == 0 {
        None
    } else if all[0].avatar_id == id {
        Some(0)
    } else {
        match first_trees_index(all.drop_first(), id) {
            Some(k) => Some(k + 1),
            None => None,
        }
    }
}

/// The light cone shown for a bag light cone.
pub open spec fn equipment_of(e: BagEquipment) -> Equipment {
    Equipment { tid: e.tid, level: e.level, promotion: e.promotion, rank: e.rank }
}

/// The light cone of an avatar: the one its path build names, else the first
/// one in the bag that it wears.
pub open spec fn chosen_equipment(path: Option<AvatarPathData>, eqs: Seq<BagEquipment>, active: u32) -> Option<
    Equipment,
> {
    let by_path = match path {
        Some(p) => last_equipment_index(eqs, p.path_equipment_id),
        None => None,
    };
    match by_path {
        Some(k) => Some(equipment_of(eqs[k])),
        None => match first_worn_index(eqs, active) {
            Some(k) => Some(equipment_of(eqs[k])),
            None => None,
        },
    }
}

/// The content of a relic item.
pub open spec fn relic_item_view(r: RelicItem) -> (u32, u32, u32, u32, Seq<SubAffix>) {
    (r.tid, r.level, r.main_affix_id, r.slot, r.sub_affix_list@)
}

/// The relics worn in the slots `equip`, each taken from the bag by unique
/// id; slots whose relic is not in the bag are left out.
pub open spec fn worn_relics(equip: Seq<EquipRelic>, relics: Seq<BagRelic>) -> Seq<
    (u32, u32, u32, u32, Seq<SubAffix>),
>
    decreases equip.len(),
{
    if equip.len() == 0 {
        Seq::empty()
    } else {
        let rest = worn_relics(equip.drop_last(), relics);
        let e = equip.last();
        match last_relic_index(relics, e.relic_unique_id) {
            Some(k) => rest.push(
                (relics[k].tid, relics[k].level, relics[k].main_affix_id, e.slot, relics[k].sub_affix_list@),
            ),
            None => rest,
        }
    }
}

/// `points` are the skill-tree points of `nodes`: for each node whose anchor
/// some tree sits at, in order, a point with the id of such a tree and the
/// node's level. Which tree is taken when several sit at one anchor is left
/// open, as the order of the resource map is.
pub open spec fn skill_points_match(
    nodes: Seq<PathSkillNode>,
    trees: Seq<TreeAnchor>,
    points: Seq<SkillTreePoint>,
) -> bool
    decreases nodes.len(),
{
    if nodes.len() == 0 {
        points.len() == 0
    } else {
        let n = nodes.last();
        if exists|k: int| 0 <= k < trees.len() && (#[trigger] trees[k]).anchor@ == anchor_text(n.anchor_type) {
            &&& points.len() > 0
            &&& points.last().level == n.level
            &&& exists|k: int|
                0 <= k < trees.len() && (#[trigger] trees[k]).anchor@ == anchor_text(n.anchor_type)
                    && trees[k].id == points.last().point_id
            &&& skill_points_match(nodes.drop_last(), trees, points.drop_last())
        } else {
            skill_points_match(nodes.drop_last(), trees, points)
        }
    }
}

/// `d` is what the profile view shows for the owned avatar `base`.
pub open spec fn owned_display(
    d: DisplayAvatar,
    base: OwnedAvatar,
    data: AvatarDataRsp,
    bag: BagRsp,
    trees: Seq<AvatarTrees>,
) -> bool {
    let active = active_id(base);
    let paths = data.avatar_path_data_info_list@;
    let path = match last_path_index(paths, active) {
        Some(k) => Some(paths[k]),
        None => None,
    };
    let enhanced = match path {
        Some(p) => p.unk_enhanced_id,
        None => None,
    };
    &&& d.avatar_id == active
    &&& d.level == base.level
    &&& d.promotion == base.promotion
    &&& d.rank == match path {
        Some(p) => p.rank,
        None => 0,
    }
    &&& d.pos == 0
    &&& d.enhanced_id == enhanced
    &&& d.equipment == chosen_equipment(path, bag.update_equipments_list@, active)
    &&& d.relic_list@.map_values(|r: RelicItem| relic_item_view(r)) == match path {
        Some(p) => worn_relics(p.equip_relic_list@, bag.update_relics_list@),
        None => Seq::empty(),
    }
    &&& match (path, first_trees_index(trees, active)) {
        (Some(p), Some(t)) => skill_points_match(
            p.avatar_path_skill_tree@,
            trees_for(trees[t], enhanced is Some),
            d.skilltree_list@,
        ),
        _ => d.skilltree_list@.len() == 0,
    }
}

/// The last path build of an avatar is one of its builds.
pub proof fn lemma_last_path_index(paths: Seq<AvatarPathData>, id: u32)
    ensures
        last_path_index(paths, id) matches Some(k) ==> 0 <= k < paths.len() && paths[k].avatar_id == id,
    decreases paths.len(),
{
    if paths.len() > 0 {
        lemma_last_path_index(paths.drop_last(), id);
    }
}

/// The last relic with an id is one with that id.
pub proof fn lemma_last_relic_index(relics: Seq<BagRelic>, id: u32)
    ensures
        last_relic_index(relics, id) matches Some(k) ==> 0 <= k < relics.len() && relics[k].unique_id == id,
    decreases relics.len(),
{
    if relics.len() > 0 {
        lemma_last_relic_index(relics.drop_last(), id);
    }
}

/// The last light cone with an id is one with that id.
pub proof fn lemma_last_equipment_index(eqs: Seq<BagEquipment>, id: u32)
    ensures
        last_equipment_index(eqs, id) matches Some(k) ==> 0 <= k < eqs.len() && eqs[k].unique_id == id,
    decreases eqs.len(),
{
    if eqs.len() > 0 {
        lemma_last_equipment_index(eqs.drop_last(), id);
    }
}

/// The first light cone worn by an avatar is one it wears.
pub proof fn lemma_first_worn_index(eqs: Seq<BagEquipment>, id: u32)
    ensures
        first_worn_index(eqs, id) matches Some(k) ==> 0 <= k < eqs.len() && eqs[k].belong_avatar_id == id,
    decreases eqs.len(),
{
    if eqs.len() > 0 {
        lemma_first_worn_index(eqs.drop_first(), id);
    }
}

/// No light cone before the first one an avatar wears is worn by it, and
/// when it wears none, no light cone is worn by it.
proof fn lemma_first_worn_is_first(eqs: Seq<BagEquipment>, id: u32)
    ensures
        first_worn_index(eqs, id) matches Some(k) ==> forall|m: int| 0 <= m < k ==> #[trigger] eqs[m].belong_avatar_id != id,
        first_worn_index(eqs, id) is None ==> forall|m: int| 0 <= m < eqs.len() ==> #[trigger] eqs[m].belong_avatar_id != id,
    decreases eqs.len(),
{
    if eqs.len() > 0 {
        let rest = eqs.drop_first();
        lemma_first_worn_is_first(rest, id);
        lemma_first_worn_index(rest, id);
        if eqs[0].belong_avatar_id != id {
            match first_worn_index(rest, id) {
                Some(k) => {
                    assert forall|m: int| 0 <= m < k + 1 implies #[trigger] eqs[m].belong_avatar_id != id by {
                        if m > 0 {
                            assert(eqs[m] == rest[m - 1]);
                        }
                    }
                },
                None => {
                    assert forall|m: int| 0 <= m < eqs.len() implies #[trigger] eqs[m].belong_avatar_id != id by {
                        if m > 0 {
                            assert(eqs[m] == rest[m - 1]);
                        }
                    }
                },
            }
        }
    }
}

/// Where no build is of avatar `id`, there is no last build of it.
proof fn lemma_no_path_index(paths: Seq<AvatarPathData>, id: u32)
    requires
        forall|j: int| 0 <= j < paths.len() ==> #[trigger] paths[j].avatar_id != id,
    ensures
        last_path_index(paths, id) is None,
    decreases paths.len(),
{
    if paths.len() > 0 {
        lemma_no_path_index(paths.drop_last(), id);
    }
}

/// The light cone an avatar is shown with is a light cone of the bag, shown
/// with that light cone's own id, level, promotion and superimposition rank;
/// it is one the avatar wears or one that a build of the avatar names.
pub proof fn lemma_shown_light_cone_from_bag(
    d: DisplayAvatar,
    base: OwnedAvatar,
    data: AvatarDataRsp,
    bag: BagRsp,
    trees: Seq<AvatarTrees>,
)
    requires
        owned_display(d, base, data, bag, trees),
    ensures
        d.equipment matches Some(e) ==> exists|k: int|
            0 <= k < bag.update_equipments_list@.len()
                && e.tid == (#[trigger] bag.update_equipments_list@[k]).tid
                && e.level == bag.update_equipments_list@[k].level
                && e.promotion == bag.update_equipments_list@[k].promotion
                && e.rank == bag.update_equipments_list@[k].rank
                && (bag.update_equipments_list@[k].belong_avatar_id == active_id(base)
                    || exists|j: int| 0 <= j < data.avatar_path_data_info_list@.len()
                        && (#[trigger] data.avatar_path_data_info_list@[j]).avatar_id == active_id(base)
                        && data.avatar_path_data_info_list@[j].path_equipment_id
                            == bag.update_equipments_list@[k].unique_id),
{
    let eqs = bag.update_equipments_list@;
    let paths = data.avatar_path_data_info_list@;
    let active = active_id(base);
    lemma_last_path_index(paths, active);
    lemma_first_worn_index(eqs, active);
    match last_path_index(paths, active) {
        Some(j) => {
            lemma_last_equipment_index(eqs, paths[j].path_equipment_id);
            match last_equipment_index(eqs, paths[j].path_equipment_id) {
                Some(k) => {
                    assert(eqs[k].unique_id == paths[j].path_equipment_id);
                },
                None => {
                    if let Some(k) = first_worn_index(eqs, active) {
                        assert(eqs[k].belong_avatar_id == active);
                    }
                },
            }
        },
        None => {
            if let Some(k) = first_worn_index(eqs, active) {
                assert(eqs[k].belong_avatar_id == active);
            }
        },
    }
}

/// An avatar without a path build is shown with the first light cone of the
/// bag that it wears, with that light cone's own id, level, promotion and
/// superimposition rank, and with none when it wears none.
pub proof fn lemma_light_cone_without_build(
    d: DisplayAvatar,
    base: OwnedAvatar,
    data: AvatarDataRsp,
    bag: BagRsp,
    trees: Seq<AvatarTrees>,
    k: int,
)
    requires
        owned_display(d, base, data, bag, trees),
        forall|j: int|
            0 <= j < data.avatar_path_data_info_list@.len()
                ==> #[trigger] data.avatar_path_data_info_list@[j].avatar_id != active_id(base),
    ensures
        d.equipment is None <==> forall|m: int|
            0 <= m < bag.update_equipments_list@.len()
                ==> #[trigger] bag.update_equipments_list@[m].belong_avatar_id != active_id(base),
        0 <= k < bag.update_equipments_list@.len()
            && bag.update_equipments_list@[k].belong_avatar_id == active_id(base)
            && (forall|m: int| 0 <= m < k ==> #[trigger] bag.update_equipments_list@[m].belong_avatar_id != active_id(base))
            ==> (d.equipment matches Some(e)
                && e.tid == bag.update_equipments_list@[k].tid
                && e.level == bag.update_equipments_list@[k].level
                && e.promotion == bag.update_equipments_list@[k].promotion
                && e.rank == bag.update_equipments_list@[k].rank),
{
    let eqs = bag.update_equipments_list@;
    let active = active_id(base);
    lemma_no_path_index(data.avatar_path_data_info_list@, active);
    lemma_first_worn_index(eqs, active);
    lemma_first_worn_is_first(eqs, active);
    if let Some(f) = first_worn_index(eqs, active) {
        assert(eqs[f].belong_avatar_id == active);
        if 0 <= k < eqs.len() && eqs[k].belong_avatar_id == active
            && (forall|m: int| 0 <= m < k ==> #[trigger] eqs[m].belong_avatar_id != active) {
            if f < k {
                assert(eqs[f].belong_avatar_id != active);
            }
            if k < f {
                assert(eqs[k].belong_avatar_id != active);
            }
        }
    }
}

/// Each relic worn in the slots `equip` is a relic of the bag that one of the
/// slots names, with that relic's own fields and that slot.
proof fn lemma_worn_relics_from_bag(equip: Seq<EquipRelic>, relics: Seq<BagRelic>)
    ensures
        forall|i: int| 0 <= i < worn_relics(equip, relics).len() ==> #[trigger] relic_from_slots(
            worn_relics(equip, relics)[i],
            equip,
            relics,
        ),
    decreases equip.len(),
{
    if equip.len() > 0 {
        let rest = equip.drop_last();
        lemma_worn_relics_from_bag(rest, relics);
        lemma_last_relic_index(relics, equip.last().relic_unique_id);
        let w = worn_relics(equip, relics);
        assert forall|i: int| 0 <= i < w.len() implies #[trigger] relic_from_slots(w[i], equip, relics) by {
            if i < worn_relics(rest, relics).len() {
                assert(w[i] == worn_relics(rest, relics)[i]);
                assert(relic_from_slots(worn_relics(rest, relics)[i], rest, relics));
                let (m, k) = choose|m: int, k: int|
                    0 <= m < rest.len() && 0 <= k < relics.len() && (#[trigger] relics[k]).unique_id
                        == (#[trigger] rest[m]).relic_unique_id && worn_relics(rest, relics)[i] == (
                        relics[k].tid,
                        relics[k].level,
                        relics[k].main_affix_id,
                        rest[m].slot,
                        relics[k].sub_affix_list@,
                    );
                assert(rest[m] == equip[m]);
            } else {
                let k = last_relic_index(relics, equip.last().relic_unique_id)->Some_0;
                let m = equip.len() - 1;
                assert(equip.last() == equip[m]);
                assert(relics[k].unique_id == equip[m].relic_unique_id);
                assert(w[i] == (
                    relics[k].tid,
                    relics[k].level,
                    relics[k].main_affix_id,
                    equip[m].slot,
                    relics[k].sub_affix_list@,
                ));
            }
        }
    }
}

/// `r` is the content of a relic of the bag `relics` that one of the slots
/// `equip` names, in that slot.
pub open spec fn relic_from_slots(
    r: (u32, u32, u32, u32, Seq<SubAffix>),
    equip: Seq<EquipRelic>,
    relics: Seq<BagRelic>,
) -> bool {
    exists|m: int, k: int|
        0 <= m < equip.len() && 0 <= k < relics.len() && (#[trigger] relics[k]).unique_id
            == (#[trigger] equip[m]).relic_unique_id && r == (
            relics[k].tid,
            relics[k].level,
            relics[k].main_affix_id,
            equip[m].slot,
            relics[k].sub_affix_list@,
        )
}

/// Each relic an avatar is shown with is a relic of the bag, shown with that
/// relic's own id, level, main affix and sub-affixes, in the slot in which
/// the avatar's path build wears it.
pub proof fn lemma_shown_relics_from_bag(
    d: DisplayAvatar,
    base: OwnedAvatar,
    data: AvatarDataRsp,
    bag: BagRsp,
    trees: Seq<AvatarTrees>,
    i: int,
)
    requires
        owned_display(d, base, data, bag, trees),
        0 <= i < d.relic_list@.len(),
    ensures
        exists|j: int, m: int, k: int| {
            &&& 0 <= j < data.avatar_path_data_info_list@.len()
            &&& data.avatar_path_data_info_list@[j].avatar_id == active_id(base)
            &&& 0 <= m < data.avatar_path_data_info_list@[j].equip_relic_list@.len()
            &&& 0 <= k < bag.update_relics_list@.len()
            &&& (#[trigger] bag.update_relics_list@[k]).unique_id
                == (#[trigger] data.avatar_path_data_info_list@[j].equip_relic_list@[m]).relic_unique_id
            &&& d.relic_list@[i].tid == bag.update_relics_list@[k].tid
            &&& d.relic_list@[i].level == bag.update_relics_list@[k].level
            &&& d.relic_list@[i].main_affix_id == bag.update_relics_list@[k].main_affix_id
            &&& d.relic_list@[i].sub_affix_list@ == bag.update_relics_list@[k].sub_affix_list@
            &&& d.relic_list@[i].slot == data.avatar_path_data_info_list@[j].equip_relic_list@[m].slot
        },
{
    let paths = data.avatar_path_data_info_list@;
    let active = active_id(base);
    lemma_last_path_index(paths, active);
    let views = d.relic_list@.map_values(|r: RelicItem| relic_item_view(r));
    assert(views[i] == relic_item_view(d.relic_list@[i]));
    match last_path_index(paths, active) {
        Some(j) => {
            let equip = paths[j].equip_relic_list@;
            lemma_worn_relics_from_bag(equip, bag.update_relics_list@);
            assert(views[i] == worn_relics(equip, bag.update_relics_list@)[i]);
            assert(relic_from_slots(worn_relics(equip, bag.update_relics_list@)[i], equip, bag.update_relics_list@));
            let (m, k) = choose|m: int, k: int|
                0 <= m < equip.len() && 0 <= k < bag.update_relics_list@.len()
                    && (#[trigger] bag.update_relics_list@[k]).unique_id == (#[trigger] equip[m]).relic_unique_id
                    && worn_relics(equip, bag.update_relics_list@)[i] == (
                    bag.update_relics_list@[k].tid,
                    bag.update_relics_list@[k].level,
                    bag.update_relics_list@[k].main_affix_id,
                    equip[m].slot,
                    bag.update_relics_list@[k].sub_affix_list@,
                );
            assert(bag.update_relics_list@[k].unique_id == paths[j].equip_relic_list@[m].relic_unique_id);
        },
        None => {
            assert(views.len() == 0);
        },
    }
}

/// The first tree list of an avatar is one of its lists.
pub proof fn lemma_first_trees_index(all: Seq<AvatarTrees>, id: u32)
    ensures
        first_trees_index(all, id) matches Some(k) ==> 0 <= k < all.len() && all[k].avatar_id == id,
    decreases all.len(),
{
    if all.len() > 0 {
        lemma_first_trees_index(all.drop_first(), id);
    }
}

/// Where the last path build of avatar `id` is.
fn find_last_path(paths: &Vec<AvatarPathData>, id: u32) -> (r: Option<usize>)
    ensures
        r matches Some(j) ==> last_path_index(paths@, id) == Some(j as int),
        r is None ==> last_path_index(paths@, id) is None,
        r matches Some(k) ==> k < paths@.len(),
{
    proof {
        lemma_last_path_index(paths@, id);
    }
    assert(paths@.take(paths@.len() as int) == paths@);
    let mut k = paths.len();
    while k > 0
        invariant
            k <= paths@.len(),
            last_path_index(paths@, id) == last_path_index(paths@.take(k as int), id),
        decreases k,
    {
        assert(paths@.take(k as int).drop_last() == paths@.take(k - 1));
        k -= 1;
        if paths[k].avatar_id == id {
            return Some(k);
        }
    }
    None
}

/// Where the last bag relic with unique id `id` is.
fn find_last_relic(relics: &Vec<BagRelic>, id: u32) -> (r: Option<usize>)
    ensures
        r matches Some(j) ==> last_relic_index(relics@, id) == Some(j as int),
        r is None ==> last_relic_index(relics@, id) is None,
        r matches Some(k) ==> k < relics@.len(),
{
    proof {
        lemma_last_relic_index(relics@, id);
    }
    assert(relics@.take(relics@.len() as int) == relics@);
    let mut k = relics.len();
    while k > 0
        invariant
            k <= relics@.len(),
            last_relic_index(relics@, id) == last_relic_index(relics@.take(k as int), id),
        decreases k,
    {
        assert(relics@.take(k as int).drop_last() == relics@.take(k - 1));
        k -= 1;
        if relics[k].unique_id == id {
            return Some(k);
        }
    }
    None
}

/// Where the last bag light cone with unique id `id` is.
fn find_last_equipment(eqs: &Vec<BagEquipment>, id: u32) -> (r: Option<usize>)
    ensures
        r matches Some(j) ==> last_equipment_index(eqs@, id) == Some(j as int),
        r is None ==> last_equipment_index(eqs@, id) is None,
        r matches Some(k) ==> k < eqs@.len(),
{
    proof {
        lemma_last_equipment_index(eqs@, id);
    }
    assert(eqs@.take(eqs@.len() as int) == eqs@);
    let mut k = eqs.len();
    while k > 0
        invariant
            k <= eqs@.len(),
            last_equipment_index(eqs@, id) == last_equipment_index(eqs@.take(k as int), id),
        decreases k,
    {
        assert(eqs@.take(k as int).drop_last() == eqs@.take(k - 1));
        k -= 1;
        if eqs[k].unique_id == id {
            return Some(k);
        }
    }
    None
}

/// Where the first bag light cone worn by avatar `id` is.
fn find_first_worn(eqs: &Vec<BagEquipment>, id: u32) -> (r: Option<usize>)
    ensures
        r matches Some(j) ==> first_worn_index(eqs@, id) == Some(j as int),
        r is None ==> first_worn_index(eqs@, id) is None,
        r matches Some(k) ==> k < eqs@.len(),
{
    proof {
        lemma_first_worn_index(eqs@, id);
    }
    assert(eqs@.skip(0) == eqs@);
    let mut k: usize = 0;
    while k < eqs.len()
        invariant
            k <= eqs@.len(),
            first_worn_index(eqs@, id) == match first_worn_index(eqs@.skip(k as int), id) {
                Some(j) => Some(j + k),
                None => None,
            },
        decreases eqs@.len() - k,
    {
        assert(eqs@.skip(k as int)[0] == eqs@[k as int]);
        assert(eqs@.skip(k as int).drop_first() == eqs@.skip(k + 1));
        if eqs[k].belong_avatar_id == id {
            return Some(k);
        }
        k += 1;
    }
    None
}

/// Where the first tree list of avatar `id` is.
fn find_first_trees(all: &Vec<AvatarTrees>, id: u32) -> (r: Option<usize>)
    ensures
        r matches Some(j) ==> first_trees_index(all@, id) == Some(j as int),
        r is None ==> first_trees_index(all@, id) is None,
        r matches Some(k) ==> k < all@.len(),
{
    proof {
        lemma_first_trees_index(all@, id);
    }
    assert(all@.skip(0) == all@);
    let mut k: usize = 0;
    while k < all.len()
        invariant
            k <= all@.len(),
            first_trees_index(all@, id) == match first_trees_index(all@.skip(k as int), id) {
                Some(j) => Some(j + k),
                None => None,
            },
        decreases all@.len() - k,
    {
        assert(all@.skip(k as int)[0] == all@[k as int]);
        assert(all@.skip(k as int).drop_first() == all@.skip(k + 1));
        if all[k].avatar_id == id {
            return Some(k);
        }
        k += 1;
    }
    None
}

/// A copy of a list of sub-stats.
fn copy_sub_affixes(src: &Vec<SubAffix>) -> (r: Vec<SubAffix>)
    ensures
        r@ == src@,
{
    let mut out: Vec<SubAffix> = Vec::new();
    for i in 0..src.len()
        invariant
            out@ == src@.take(i as int),
    {
        out.push(src[i]);
        assert(src@.take(i + 1) =~= src@.take(i as int).push(src@[i as int]));
    }
    assert(src@.take(src@.len() as int) == src@);
    out
}

/// The relics worn in the slots of a path build.
fn collect_worn_relics(equip: &Vec<EquipRelic>, relics: &Vec<BagRelic>) -> (r: Vec<RelicItem>)
    ensures
        r@.map_values(|x: RelicItem| relic_item_view(x)) == worn_relics(equip@, relics@),
{
    let mut out: Vec<RelicItem> = Vec::new();
    for i in 0..equip.len()
        invariant
            out@.map_values(|x: RelicItem| relic_item_view(x)) == worn_relics(
                equip@.take(i as int),
                relics@,
            ),
    {
        let er = equip[i];
        assert(equip@.take(i + 1).drop_last() == equip@.take(i as int));
        assert(equip@.take(i + 1).last() == er);
        proof {
            lemma_last_relic_index(relics@, er.relic_unique_id);
        }
        let ghost before = out@;
        if let Some(k) = find_last_relic(relics, er.relic_unique_id) {
            let r = &relics[k];
            out.push(
                RelicItem {
                    tid: r.tid,
                    level: r.level,
                    main_affix_id: r.main_affix_id,
                    slot: er.slot,
                    sub_affix_list: copy_sub_affixes(&r.sub_affix_list),
                },
            );
            assert(out@.map_values(|x: RelicItem| relic_item_view(x)) =~= before.map_values(
                |x: RelicItem| relic_item_view(x),
            ).push(relic_item_view(out@.last())));
        }
    }
    assert(equip@.take(equip@.len() as int) == equip@);
    out
}

/// Where the first tree at `anchor` is.
fn find_anchor(trees: &Vec<TreeAnchor>, anchor: &String) -> (r: Option<usize>)
    ensures
        r matches Some(k) ==> k < trees@.len() && trees@[k as int].anchor@ == anchor@,
        r is None ==> forall|k: int| 0 <= k < trees@.len() ==> (#[trigger] trees@[k]).anchor@ != anchor@,
{
    for k in 0..trees.len()
        invariant
            forall|j: int| 0 <= j < k ==> (#[trigger] trees@[j]).anchor@ != anchor@,
    {
        if trees[k].anchor == *anchor {
            return Some(k);
        }
    }
    None
}

/// The skill-tree points of the nodes of a path build.
fn collect_skill_points(nodes: &Vec<PathSkillNode>, trees: &Vec<TreeAnchor>) -> (r: Vec<SkillTreePoint>)
    ensures
        skill_points_match(nodes@, trees@, r@),
{
    let mut out: Vec<SkillTreePoint> = Vec::new();
    for i in 0..nodes.len()
        invariant
            skill_points_match(nodes@.take(i as int), trees@, out@),
    {
        let n = nodes[i];
        let label = anchor_label(n.anchor_type);
        assert(nodes@.take(i + 1).drop_last() == nodes@.take(i as int));
        assert(nodes@.take(i + 1).last() == n);
        let ghost before = out@;
        match find_anchor(trees, &label) {
            Some(k) => {
                out.push(SkillTreePoint { point_id: trees[k].id, level: n.level });
                assert(out@.drop_last() == before);
                assert(trees@[k as int].anchor@ == anchor_text(n.anchor_type));
            },
            None => {},
        }
    }
    assert(nodes@.take(nodes@.len() as int) == nodes@);
    out
}

/// The owned avatars as the profile view shows them, in the order of the
/// owned-avatar list.
pub fn to_display_avatars(data: &AvatarDataRsp, bag: &BagRsp, trees: &Vec<AvatarTrees>) -> (out: Vec<DisplayAvatar>)
    ensures
        out@.len() == data.avatar_list@.len(),
        forall|i: int|
            0 <= i < out@.len() ==> owned_display(
                #[trigger] out@[i],
                data.avatar_list@[i],
                *data,
                *bag,
                trees@,
            ),
{
    let mut out: Vec<DisplayAvatar> = Vec::new();
    for i in 0..data.avatar_list.len()
        invariant
            out@.len() == i,
            forall|j: int|
                0 <= j < i ==> owned_display(#[trigger] out@[j], data.avatar_list@[j], *data, *bag, trees@),
    {
        let base = data.avatar_list[i];
        let active = if base.cur_multi_path_avatar_type != 0 {
            base.cur_multi_path_avatar_type
        } else {
            base.base_avatar_id
        };
        let path_index = find_last_path(&data.avatar_path_data_info_list, active);
        let enhanced_id = match path_index {
            Some(k) => data.avatar_path_data_info_list[k].unk_enhanced_id,
            None => None,
        };
        let relic_list = match path_index {
            Some(k) => collect_worn_relics(
                &data.avatar_path_data_info_list[k].equip_relic_list,
                &bag.update_relics_list,
            ),
            None => Vec::new(),
        };
        let by_path = match path_index {
            Some(k) => find_last_equipment(
                &bag.update_equipments_list,
                data.avatar_path_data_info_list[k].path_equipment_id,
            ),
            None => None,
        };
        let chosen = match by_path {
            Some(e) => Some(e),
            None => find_first_worn(&bag.update_equipments_list, active),
        };
        let equipment = match chosen {
            Some(e) => {
                let b = bag.update_equipments_list[e];
                Some(Equipment { tid: b.tid, level: b.level, promotion: b.promotion, rank: b.rank })
            },
            None => None,
        };
        let tree_index = find_first_trees(trees, active);
        let skilltree_list = match (path_index, tree_index) {
            (Some(k), Some(t)) => collect_skill_points(
                &data.avatar_path_data_info_list[k].avatar_path_skill_tree,
                trees[t].skill_trees_for(enhanced_id.is_some()),
            ),
            _ => Vec::new(),
        };
        let rank = match path_index {
            Some(k) => data.avatar_path_data_info_list[k].rank,
            None => 0,
        };
        let d = DisplayAvatar {
            avatar_id: active,
            level: base.level,
            promotion: base.promotion,
            rank,
            pos: 0,
            enhanced_id,
            skilltree_list,
            equipment,
            relic_list,
        };
        proof {
            let paths = data.avatar_path_data_info_list@;
            lemma_last_path_index(paths, active);
            lemma_last_equipment_index(bag.update_equipments_list@, match path_index { Some(k) => paths[k as int].path_equipment_id, None => 0 });
            lemma_first_worn_index(bag.update_equipments_list@, active);
            lemma_first_trees_index(trees@, active);
            let path = match last_path_index(paths, active) {
                Some(k) => Some(paths[k]),
                None => None,
            };
            assert(active == active_id(base));
            assert(d.rank == match path {
                Some(p) => p.rank,
                None => 0,
            });
            assert(d.enhanced_id == match path {
                Some(p) => p.unk_enhanced_id,
                None => None,
            });
            assert(d.equipment == chosen_equipment(path, bag.update_equipments_list@, active));
            assert(d.relic_list@.map_values(|r: RelicItem| relic_item_view(r)) == match path {
                Some(p) => worn_relics(p.equip_relic_list@, bag.update_relics_list@),
                None => Seq::empty(),
            });
        }
        assert(owned_display(d, data.avatar_list@[i as int], *data, *bag, trees@));
        out.push(d);
    }
    out
}


/// What the profile header shows of a player.
#[derive(Clone, Debug)]
pub struct PlayerSummary {
    pub nickname: String,
    pub uid: u64,
    pub level: u32,
    pub world_level: u32,
    pub signature: String,
    pub friend_count: u32,
    pub birthday: Option<u32>,
    pub achievement_count: u32,
    pub avatar_count: u32,
    pub lightcone_count: u32,
    pub su_count: u32,
}

/// Why a profile cannot be shown.
#[derive(Clone, Copy, Debug, PartialEq, Eq, Structural)]
pub enum ProfileError {
    /// No UID and no avatars: the UID is wrong, or the game was not asked
    /// while running.
    EmptyResponse,
}

/// The response carries nothing: no UID and no avatars.
pub open spec fn empty_response(info: DetailInfo) -> bool {
    info.uid == 0 && info.display_avatar_list@.len() == 0 && info.assist_avatar_list@.len() == 0
}

/// `p` summarizes `info`.
pub open spec fn summary_of(p: PlayerSummary, info: DetailInfo) -> bool {
    &&& p.nickname == info.nickname
    &&& p.uid == info.uid
    &&& p.level == info.level
    &&& p.world_level == info.world_level
    &&& p.signature == info.signature
    &&& p.friend_count == info.friend_count
    &&& p.birthday == info.birthday
    &&& p.achievement_count == info.record_info.achievement_count
    &&& p.avatar_count == info.record_info.avatar_count
    &&& p.lightcone_count == info.record_info.lightcone_count
    &&& p.su_count == info.record_info.su_count
}

/// The avatars of a profile marked as support (`true`) or shown (`false`).
pub open spec fn marked(s: Seq<DisplayAvatar>, assist: bool) -> Seq<(bool, DisplayAvatar)> {
    s.map_values(|a: DisplayAvatar| (assist, a))
}

/// A profile's summary and its avatars, support avatars first; an empty
/// response is refused.
pub fn read_profile(info: DetailInfo) -> (r: Result<(PlayerSummary, Vec<(bool, DisplayAvatar)>), ProfileError>)
    ensures
        match r {
            Ok((p, raw)) => !empty_response(info) && summary_of(p, info) && raw@ == marked(
                info.assist_avatar_list@,
                true,
            ) + marked(info.display_avatar_list@, false),
            Err(e) => empty_response(info) && e == ProfileError::EmptyResponse,
        },
{
    if info.uid == 0 && info.display_avatar_list.len() == 0 && info.assist_avatar_list.len() == 0 {
        return Err(ProfileError::EmptyResponse);
    }
    let ghost whole = info;
    let DetailInfo {
        uid,
        nickname,
        level,
        world_level,
        signature,
        friend_count,
        birthday,
        record_info,
        display_avatar_list,
        assist_avatar_list,
        ..
    } = info;
    let player = PlayerSummary {
        nickname,
        uid,
        level,
        world_level,
        signature,
        friend_count,
        birthday,
        achievement_count: record_info.achievement_count,
        avatar_count: record_info.avatar_count,
        lightcone_count: record_info.lightcone_count,
        su_count: record_info.su_count,
    };
    let mut raw: Vec<(bool, DisplayAvatar)> = Vec::new();
    let ghost assists = assist_avatar_list@;
    let ghost shown = display_avatar_list@;
    for a in it: assist_avatar_list
        invariant
            it.seq() == assists,
            raw@ == marked(assists.take(it.index() as int), true),
    {
        assert(marked(assists.take(it.index() + 1), true) =~= marked(assists.take(it.index() as int), true).push((true, a)));
        raw.push((true, a));
    }
    assert(assists.take(assists.len() as int) =~= assists);
    let ghost head = raw@;
    for a in it: display_avatar_list
        invariant
            it.seq() == shown,
            raw@ == head + marked(shown.take(it.index() as int), false),
    {
        assert(marked(shown.take(it.index() + 1), false) =~= marked(shown.take(it.index() as int), false).push((false, a)));
        raw.push((false, a));
    }
    assert(shown.take(shown.len() as int) =~= shown);
    Ok((player, raw))
}

/// The JSON value `serde_json::from_str` reads from `text`; `None` where
/// the text is not JSON.
pub uninterp spec fn json_parsed(text: Seq<char>) -> Option<serde_json::Value>;

/// `text` read as a JSON value by `serde_json::from_str`. Trusted: the value
/// is a function of the text alone, and `None` exactly when the call fails.
#[verifier::external_body]
fn parse_json(text: &str) -> (r: Option<serde_json::Value>)
    ensures
        r == json_parsed(text@),
{
    serde_json::from_str::<serde_json::Value>(text).ok()
}

/// The member `key` of the JSON value `v` (`Value::get`), if `v` is an
/// object that has one.
pub uninterp spec fn json_member(v: serde_json::Value, key: Seq<char>) -> Option<serde_json::Value>;

/// The member `key` of `v`, by `serde_json::Value::get`. Trusted: the
/// member is a function of the value and the key's characters alone.
#[verifier::external_body]
fn json_get<'a>(v: &'a serde_json::Value, key: &str) -> (r: Option<&'a serde_json::Value>)
    ensures
        match r {
            Some(m) => json_member(*v, key@) == Some(*m),
            None => json_member(*v, key@) is None,
        },
{
    v.get(key)
}

/// The JSON value `v` as a `u64` (`Value::as_u64`), if it is such a number.
pub uninterp spec fn json_u64(v: serde_json::Value) -> Option<u64>;

/// `v` as a `u64`, by `serde_json::Value::as_u64`. Trusted: the result is a
/// function of the value alone.
#[verifier::external_body]
fn json_as_u64(v: &serde_json::Value) -> (r: Option<u64>)
    ensures
        r == json_u64(*v),
{
    v.as_u64()
}

/// The number at `detail_info.uid` in the JSON text `text`, as serde_json
/// reads it; `None` where the text is not JSON or holds no such number.
pub open spec fn detail_uid(text: Seq<char>) -> Option<u64> {
    match json_parsed(text) {
        Some(v) => match json_member(v, "detail_info"@) {
            Some(d) => match json_member(d, "uid"@) {
                Some(u) => json_u64(u),
                None => None,
            },
            None => None,
        },
        None => None,
    }
}

/// The UID a profile response is about (see `detail_uid`).
fn json_uid(json: &str) -> (r: Option<u64>)
    ensures
        r == detail_uid(json@),
{
    let v = match parse_json(json) {
        Some(v) => v,
        None => return None,
    };
    let d = match json_get(&v, "detail_info") {
        Some(d) => d,
        None => return None,
    };
    match json_get(d, "uid") {
        Some(u) => json_as_u64(u),
        None => None,
    }
}

/// How many checks a profile request waits for its answer.
pub const MAX_AWAIT_TICKS: u32 = 40;

/// The position of the latest answer about `target` among answers about
/// the UIDs `uids`.
pub fn latest_answer(uids: &Vec<Option<u64>>, target: u64) -> (r: Option<usize>)
    ensures
        match r {
            Some(i) => i < uids@.len() && uids@[i as int] == Some(target) && forall|j: int|
                i < j < uids@.len() ==> uids@[j] != Some(target),
            None => forall|j: int| 0 <= j < uids@.len() ==> uids@[j] != Some(target),
        },
{
    let mut i = uids.len();
    while i > 0
        invariant
            i <= uids@.len(),
            forall|j: int| i <= j < uids@.len() ==> uids@[j] != Some(target),
        decreases i,
    {
        i -= 1;
        match uids[i] {
            Some(u) => if u == target {
                return Some(i);
            },
            None => {},
        }
    }
    None
}

/// What a check of the profile inbox decides.
#[derive(Clone, Copy, Debug, PartialEq, Eq, Structural)]
pub enum PollAction {
    /// Nothing to do.
    Idle,
    /// Load the answer at this position of the inbox.
    Load(usize),
    /// Stop waiting: no answer came in time.
    GiveUp,
}

/// The state of a profile request.
#[derive(Clone, Copy, Debug)]
pub struct DetailRequest {
    pub awaiting_response: bool,
    pub awaiting_uid: Option<u32>,
    pub await_ticks: u32,
}

/// The UID typed into the search box: the text without the whitespace around
/// it, read as a `u32` as `u32::from_str` reads it.
pub fn parse_uid(raw: &str) -> (r: Option<u32>)
    ensures
        r == match parse_u64_seq(trim_seq(raw@)) {
            Some(v) => if v <= u32::MAX {
                Some(v as u32)
            } else {
                None::<u32>
            },
            None => None::<u32>,
        },
{
    match parse_u64(&trim_chars(&to_chars(raw))) {
        Some(v) => if v <= u32::MAX as u64 {
            Some(v as u32)
        } else {
            None
        },
        None => None,
    }
}

impl DetailRequest {
    /// The request for `uid` has been sent: its answer is awaited, from the
    /// first check on.
    pub fn begin(&mut self, uid: u32)
        ensures
            final(self).awaiting_response,
            final(self).awaiting_uid == Some(uid),
            final(self).await_ticks == 0,
    {
        self.awaiting_response = true;
        self.awaiting_uid = Some(uid);
        self.await_ticks = 0;
    }

    /// One check of the inbox, whose answers are about the UIDs `uids`: the
    /// latest answer about the requested UID is loaded; without one, a
    /// waiting request gives up on its `MAX_AWAIT_TICKS`-th check.
    pub fn poll(&mut self, uids: &Vec<Option<u64>>) -> (act: PollAction)
        requires
            old(self).await_ticks < u32::MAX,
        ensures
            match (old(self).awaiting_response, old(self).awaiting_uid) {
                (true, Some(t)) if exists|j: int| 0 <= j < uids@.len() && uids@[j] == Some(t as u64) => {
                    &&& act matches PollAction::Load(i) && i < uids@.len() && uids@[i as int] == Some(t as u64)
                        && forall|j: int| i < j < uids@.len() ==> uids@[j] != Some(t as u64)
                    &&& !final(self).awaiting_response
                    &&& final(self).awaiting_uid is None
                    &&& final(self).await_ticks == old(self).await_ticks
                },
                (true, _) => {
                    &&& final(self).await_ticks == old(self).await_ticks + 1
                    &&& if old(self).await_ticks + 1 >= MAX_AWAIT_TICKS {
                        &&& act == PollAction::GiveUp
                        &&& !final(self).awaiting_response
                        &&& final(self).awaiting_uid is None
                    } else {
                        &&& act == PollAction::Idle
                        &&& final(self).awaiting_response
                        &&& final(self).awaiting_uid == old(self).awaiting_uid
                    }
                },
                (false, _) => {
                    &&& act == PollAction::Idle
                    &&& !final(self).awaiting_response
                    &&& final(self).awaiting_uid == old(self).awaiting_uid
                    &&& final(self).await_ticks == old(self).await_ticks
                },
            },
    {
        if !self.awaiting_response {
            return PollAction::Idle;
        }
        if let Some(target) = self.awaiting_uid {
            if let Some(i) = latest_answer(uids, target as u64) {
                self.awaiting_response = false;
                self.awaiting_uid = None;
                return PollAction::Load(i);
            }
        }
        self.await_ticks = self.await_ticks + 1;
        if self.await_ticks >= MAX_AWAIT_TICKS {
            self.awaiting_response = false;
            self.awaiting_uid = None;
            return PollAction::GiveUp;
        }
        PollAction::Idle
    }
}

/// The UIDs the inbox answers are about.
pub fn answer_uids(pending: &Vec<String>) -> (uids: Vec<Option<u64>>)
    ensures
        uids@.len() == pending@.len(),
        forall|i: int| 0 <= i < pending@.len() ==> uids@[i] == detail_uid(pending@[i]@),
{
    let mut uids: Vec<Option<u64>> = Vec::new();
    for i in 0..pending.len()
        invariant
            uids@.len() == i,
            forall|k: int| 0 <= k < i ==> uids@[k] == detail_uid(pending@[k]@),
    {
        uids.push(json_uid(pending[i].as_str()));
    }
    uids
}

} // verus!
