//! Game resource texts: the text maps in every language, stat names and icons,
//! and the small rules around them (rich-text stripping, percent stats,
//! recommendation keys).

use std::collections::HashMap;

use vstd::prelude::*;

use crate::uid::SkillTreePoint;
use crate::text::{
    same_str, compare_text, contains_chars, contains_text, decimal, push_decimal, push_signed_decimal,
    signed_decimal, string_from_chars, to_chars, TextOrder,
};

verus! {

/// Where the resource files are fetched from.
pub const ASSET_BASE_URL: &'static str = "https://cdn.neonteam.dev/neonteam";

/// Where the site's own icons are.
pub const SITE_ICON_BASE_URL: &'static str = "https://srtools.neonteam.dev/icons";

/// The name and icon of a stat property.
#[derive(Clone, Debug)]
pub struct StatProperty {
    pub name: i64,
    pub name_skill_tree: Option<i64>,
    pub icon_name: String,
}

/// An eidolon of an avatar and the skill levels it adds, keyed by the
/// decimal skill id (each key once, as in the resource file's map).
#[derive(Clone, Debug)]
pub struct AvatarRank {
    pub id: u32,
    pub rank: u32,
    pub name: i64,
    pub skill_add_level_map: Vec<(String, u32)>,
}

/// A skill of an avatar.
#[derive(Clone, Debug)]
pub struct AvatarSkill {
    pub id: u32,
    pub max_level: u32,
    pub kind: String,
    pub type_text: i64,
    pub name: i64,
}

/// A relic kind.
#[derive(Clone, Debug)]
pub struct RelicRes {
    pub id: u32,
    pub set_id: u32,
    pub rarity: u32,
    pub slot: String,
    pub max_level: u32,
    pub main_affix_id: u32,
    pub name: i64,
    pub icon: String,
}

/// A path.
#[derive(Clone, Debug)]
pub struct PathRes {
    pub id: String,
    pub text: Option<i64>,
    pub name: String,
    pub icon: String,
}

/// An element.
#[derive(Clone, Debug)]
pub struct ElementRes {
    pub id: String,
    pub name: i64,
    pub icon: String,
}

/// The resource index: which version is current.
#[derive(Clone, Debug)]
pub struct Metadata {
    pub current_version: String,
}

/// A recommended main stat and how strongly it is recommended.
#[derive(Clone, Debug)]
pub struct MainRec {
    pub p: String,
    pub pct: u32,
}

/// The recommended main stats of an avatar, per relic slot.
#[derive(Clone, Debug, Default)]
pub struct CharRecommend {
    pub body: Vec<MainRec>,
    pub sphere: Vec<MainRec>,
    pub rope: Vec<MainRec>,
    pub foot: Vec<MainRec>,
}

/// A skill line of an avatar panel.
#[derive(Clone, Debug)]
pub struct SkillLine {
    pub label: String,
    pub level: u32,
    pub plus: u32,
    pub max: u32,
}

/// An active relic set bonus of an avatar panel.
#[derive(Clone, Debug)]
pub struct SetBonusLine {
    pub set_id: u32,
    pub count: u32,
    pub name: String,
    pub icon: String,
}

// ---------------------------------------------------------------------------
// Small rules
// ---------------------------------------------------------------------------

/// Whether a stat property is shown as a percentage: its name holds "Ratio"
/// or "Base".
pub fn is_percent(property: &str) -> (r: bool)
    ensures
        r == (contains_text(property@, seq!['R', 'a', 't', 'i', 'o']) || contains_text(
            property@,
            seq!['B', 'a', 's', 'e'],
        )),
{
    let p = to_chars(property);
    let mut ratio: Vec<char> = Vec::new();
    ratio.push('R');
    ratio.push('a');
    ratio.push('t');
    ratio.push('i');
    ratio.push('o');
    let mut base: Vec<char> = Vec::new();
    base.push('B');
    base.push('a');
    base.push('s');
    base.push('e');
    assert(ratio@ =~= seq!['R', 'a', 't', 'i', 'o']);
    assert(base@ =~= seq!['B', 'a', 's', 'e']);
    contains_chars(&p, &ratio) || contains_chars(&p, &base)
}

/// The avatar whose recommendations an avatar uses: the even-numbered
/// Trailblazer forms 8002..8010 use the odd form before them.
pub fn recommend_key(avatar_id: u32) -> (k: u32)
    ensures
        k == if avatar_id == 8002 || avatar_id == 8004 || avatar_id == 8006 || avatar_id == 8008
            || avatar_id == 8010 {
            (avatar_id - 1) as u32
        } else {
            avatar_id
        },
{
    match avatar_id {
        8002 | 8004 | 8006 | 8008 | 8010 => avatar_id - 1,
        _ => avatar_id,
    }
}

/// `s` with every markup tag `<...>` removed, walking from the start: a `<`
/// opens a tag, a `>` closes it, both are dropped, and characters inside a
/// tag are dropped.
pub open spec fn strip_tags(s: Seq<char>, in_tag: bool) -> Seq<char>
    decreases s.len(),
{
    if s.len() == 0 {
        Seq::empty()
    } else if s[0] == '<' {
        strip_tags(s.drop_first(), true)
    } else if s[0] == '>' {
        strip_tags(s.drop_first(), false)
    } else if in_tag {
        strip_tags(s.drop_first(), true)
    } else {
        seq![s[0]] + strip_tags(s.drop_first(), false)
    }
}

/// The plain text of a game text: unchanged when it holds no `<`, else with
/// its tags removed.
pub open spec fn plain_text(s: Seq<char>) -> Seq<char> {
    if s.contains('<') {
        strip_tags(s, false)
    } else {
        s
    }
}

/// Removing tags leaves no `<`.
proof fn lemma_strip_tags_no_open(s: Seq<char>, in_tag: bool)
    ensures
        !strip_tags(s, in_tag).contains('<'),
    decreases s.len(),
{
    if s.len() > 0 {
        lemma_strip_tags_no_open(s.drop_first(), s[0] == '<' || (s[0] != '>' && in_tag));
        if s[0] != '<' && s[0] != '>' && !in_tag {
            let r = strip_tags(s.drop_first(), false);
            assert forall|j: int| 0 <= j < (seq![s[0]] + r).len() implies (seq![s[0]] + r)[j] != '<' by {
                if j > 0 {
                    assert((seq![s[0]] + r)[j] == r[j - 1]);
                }
            }
        }
    }
}

/// The plain text of a game text holds no `<`, and taking the plain text
/// again changes nothing.
pub proof fn lemma_plain_text_idempotent(s: Seq<char>)
    ensures
        !plain_text(s).contains('<'),
        plain_text(plain_text(s)) == plain_text(s),
{
    lemma_strip_tags_no_open(s, false);
}

/// The plain text of a game text.
pub fn strip_rich_text(s: &str) -> (r: String)
    ensures
        r@ == plain_text(s@),
{
    let chars = to_chars(s);
    let mut has_open = false;
    for i in 0..chars.len()
        invariant
            chars@ == s@,
            has_open <==> exists|j: int| 0 <= j < i && chars@[j] == '<',
    {
        if chars[i] == '<' {
            has_open = true;
        }
    }
    if !has_open {
        assert(!s@.contains('<'));
        return string_from_chars(&chars);
    }
    let mut out: Vec<char> = Vec::new();
    let mut in_tag = false;
    assert(chars@.skip(0) == chars@);
    for i in 0..chars.len()
        invariant
            chars@ == s@,
            out@ + strip_tags(chars@.skip(i as int), in_tag) == strip_tags(chars@, false),
    {
        let c = chars[i];
        assert(chars@.skip(i as int)[0] == c);
        assert(chars@.skip(i as int).drop_first() == chars@.skip(i + 1));
        let ghost before = out@;
        if c == '<' {
            in_tag = true;
        } else if c == '>' {
            in_tag = false;
        } else if !in_tag {
            out.push(c);
            assert(before + (seq![c] + strip_tags(chars@.skip(i + 1), false)) =~= out@ + strip_tags(
                chars@.skip(i + 1),
                false,
            ));
        }
    }
    assert(chars@.skip(chars@.len() as int) =~= Seq::<char>::empty());
    assert(out@ + Seq::<char>::empty() == out@);
    string_from_chars(&out)
}

/// `s` with every occurrence of `pat` (non-empty), found from the left
/// without overlap, replaced by `rep` (`str::replace`).
pub open spec fn replace_text(s: Seq<char>, pat: Seq<char>, rep: Seq<char>) -> Seq<char>
    decreases s.len(),
{
    if s.len() == 0 || pat.len() == 0 {
        s
    } else if pat.len() <= s.len() && s.take(pat.len() as int) == pat {
        rep + replace_text(s.skip(pat.len() as int), pat, rep)
    } else {
        seq![s[0]] + replace_text(s.drop_first(), pat, rep)
    }
}

/// `s` with every occurrence of `pat` (non-empty) replaced by `rep`.
pub fn replace_chars(s: &Vec<char>, pat: &Vec<char>, rep: &Vec<char>) -> (r: Vec<char>)
    requires
        pat@.len() > 0,
    ensures
        r@ == replace_text(s@, pat@, rep@),
{
    let mut out: Vec<char> = Vec::new();
    let mut i: usize = 0;
    assert(s@.skip(0) == s@);
    while i < s.len()
        invariant
            i <= s@.len(),
            pat@.len() > 0,
            out@ + replace_text(s@.skip(i as int), pat@, rep@) == replace_text(s@, pat@, rep@),
        decreases s@.len() - i,
    {
        let ghost rest = s@.skip(i as int);
        let ghost before = out@;
        let hit = pat.len() <= s.len() - i && {
            let mut k: usize = 0;
            let mut same = true;
            while k < pat.len()
                invariant
                    k <= pat.len(),
                    i <= s.len(),
                    pat.len() <= s.len() - i,
                    same <==> forall|j: int| 0 <= j < k ==> s@[i + j] == pat@[j],
                decreases pat@.len() - k,
            {
                if s[i + k] != pat[k] {
                    same = false;
                }
                k += 1;
            }
            same
        };
        proof {
            if pat@.len() <= rest.len() {
                if hit {
                    assert(rest.take(pat@.len() as int) =~= pat@);
                } else {
                    let j = choose|j: int| 0 <= j < pat@.len() && s@[i + j] != pat@[j];
                    assert(rest.take(pat@.len() as int)[j] != pat@[j]);
                }
            }
        }
        if hit {
            for k in 0..rep.len()
                invariant
                    out@ == before + rep@.take(k as int),
            {
                out.push(rep[k]);
                assert(rep@.take(k + 1) =~= rep@.take(k as int).push(rep@[k as int]));
            }
            assert(rep@.take(rep@.len() as int) == rep@);
            assert(rest.skip(pat@.len() as int) =~= s@.skip(i + pat@.len()));
            assert(before + (rep@ + replace_text(s@.skip(i + pat@.len()), pat@, rep@)) =~= out@
                + replace_text(s@.skip(i + pat@.len()), pat@, rep@));
            i += pat.len();
        } else {
            out.push(s[i]);
            assert(rest[0] == s@[i as int]);
            assert(rest.drop_first() =~= s@.skip(i + 1));
            assert(before + (seq![s@[i as int]] + replace_text(s@.skip(i + 1), pat@, rep@)) =~= out@
                + replace_text(s@.skip(i + 1), pat@, rep@));
            i += 1;
        }
    }
    assert(s@.skip(i as int) =~= Seq::<char>::empty());
    assert(out@ + Seq::<char>::empty() == out@);
    out
}

// ---------------------------------------------------------------------------
// Text maps
// ---------------------------------------------------------------------------

/// The texts of one language, keyed by the decimal text of their hash (each
/// key once, as in the resource file's map).
#[derive(Clone, Debug)]
pub struct LanguageTexts {
    pub language: String,
    pub texts: Vec<(String, String)>,
}

/// The game texts in every language, and the stat properties.
#[derive(Clone, Debug)]
pub struct ResourceTexts {
    pub textmaps: Vec<LanguageTexts>,
    pub stat_properties: Vec<(String, StatProperty)>,
}

/// Where the texts of language `lang` are.
pub open spec fn language_index(ls: Seq<LanguageTexts>, lang: Seq<char>) -> Option<int>
    decreases ls.len(),
{
    if ls.len() == 0 {
        None
    } else if ls[0].language@ == lang {
        Some(0)
    } else {
        match language_index(ls.drop_first(), lang) {
            Some(k) => Some(k + 1),
            None => None,
        }
    }
}

/// Where the text keyed by the decimal text of `hash` is.
pub open spec fn text_index(ts: Seq<(String, String)>, hash: i64) -> Option<int>
    decreases ts.len(),
{
    if ts.len() == 0 {
        None
    } else if ts[0].0@ == signed_decimal(hash) {
        Some(0)
    } else {
        match text_index(ts.drop_first(), hash) {
            Some(k) => Some(k + 1),
            None => None,
        }
    }
}

/// Where the stat property `name` is.
pub open spec fn property_index(ps: Seq<(String, StatProperty)>, name: Seq<char>) -> Option<int>
    decreases ps.len(),
{
    if ps.len() == 0 {
        None
    } else if ps[0].0@ == name {
        Some(0)
    } else {
        match property_index(ps.drop_first(), name) {
            Some(k) => Some(k + 1),
            None => None,
        }
    }
}

/// The text with hash `hash` in language `lang`, when there is a non-empty
/// one.
pub open spec fn usable_text(ls: Seq<LanguageTexts>, lang: Seq<char>, hash: i64) -> Option<Seq<char>> {
    match language_index(ls, lang) {
        Some(li) => match text_index(ls[li].texts@, hash) {
            Some(ti) => if ls[li].texts@[ti].1@.len() > 0 {
                Some(ls[li].texts@[ti].1@)
            } else {
                None
            },
            None => None,
        },
        None => None,
    }
}


/// The text shown for hash `hash` in `language`: the plain text in that
/// language, else in Chinese, else in English, else `#` and the hash.
pub open spec fn resolved_text(ls: Seq<LanguageTexts>, language: Seq<char>, hash: i64) -> Seq<char> {
    match usable_text(ls, language, hash) {
        Some(t) => plain_text(t),
        None => match usable_text(ls, seq!['C', 'N'], hash) {
            Some(t) => plain_text(t),
            None => match usable_text(ls, seq!['E', 'N'], hash) {
                Some(t) => plain_text(t),
                None => seq!['#'] + signed_decimal(hash),
            },
        },
    }
}

/// Whether two texts are equal.
fn same_text(a: &Vec<char>, b: &Vec<char>) -> (r: bool)
    ensures
        r == (a@ == b@),
{
    compare_text(a, b) == TextOrder::Equal
}

/// The table found for a language is one of the tables, and of that language.
pub proof fn lemma_language_index(ls: Seq<LanguageTexts>, lang: Seq<char>)
    ensures
        language_index(ls, lang) matches Some(k) ==> 0 <= k < ls.len() && ls[k].language@ == lang,
    decreases ls.len(),
{
    if ls.len() > 0 {
        lemma_language_index(ls.drop_first(), lang);
    }
}

/// The text found for a hash is one of the texts, and has that hash.
pub proof fn lemma_text_index(ts: Seq<(String, String)>, hash: i64)
    ensures
        text_index(ts, hash) matches Some(k) ==> 0 <= k < ts.len() && ts[k].0@ == signed_decimal(hash),
    decreases ts.len(),
{
    if ts.len() > 0 {
        lemma_text_index(ts.drop_first(), hash);
    }
}

/// The property found for a name is one of the properties, and has that name.
pub proof fn lemma_property_index(ps: Seq<(String, StatProperty)>, name: Seq<char>)
    ensures
        property_index(ps, name) matches Some(k) ==> 0 <= k < ps.len() && ps[k].0@ == name,
    decreases ps.len(),
{
    if ps.len() > 0 {
        lemma_property_index(ps.drop_first(), name);
    }
}

/// Where the texts of language `lang` are.
fn find_language(ls: &Vec<LanguageTexts>, lang: &Vec<char>) -> (r: Option<usize>)
    ensures
        r matches Some(j) ==> language_index(ls@, lang@) == Some(j as int),
        r is None ==> language_index(ls@, lang@) is None,
{
    let mut k: usize = 0;
    assert(ls@.skip(0) == ls@);
    while k < ls.len()
        invariant
            k <= ls@.len(),
            language_index(ls@, lang@) == match language_index(ls@.skip(k as int), lang@) {
                Some(j) => Some(j + k),
                None => None,
            },
        decreases ls@.len() - k,
    {
        assert(ls@.skip(k as int)[0] == ls@[k as int]);
        assert(ls@.skip(k as int).drop_first() == ls@.skip(k + 1));
        let name = to_chars(ls[k].language.as_str());
        if same_text(&name, lang) {
            return Some(k);
        }
        k += 1;
    }
    assert(ls@.skip(k as int) =~= Seq::<LanguageTexts>::empty());
    None
}

/// Where the text with hash `hash` is.
fn find_text(ts: &Vec<(String, String)>, key: &str, Ghost(hash): Ghost<i64>) -> (r: Option<usize>)
    requires
        key@ == signed_decimal(hash),
    ensures
        r matches Some(j) ==> text_index(ts@, hash) == Some(j as int),
        r is None ==> text_index(ts@, hash) is None,
{
    let mut k: usize = 0;
    assert(ts@.skip(0) == ts@);
    while k < ts.len()
        invariant
            k <= ts@.len(),
            key@ == signed_decimal(hash),
            text_index(ts@, hash) == match text_index(ts@.skip(k as int), hash) {
                Some(j) => Some(j + k),
                None => None,
            },
        decreases ts@.len() - k,
    {
        assert(ts@.skip(k as int)[0] == ts@[k as int]);
        assert(ts@.skip(k as int).drop_first() == ts@.skip(k + 1));
        if same_str(ts[k].0.as_str(), key) {
            return Some(k);
        }
        k += 1;
    }
    assert(ts@.skip(k as int) =~= Seq::<(String, String)>::empty());
    None
}

impl ResourceTexts {
    /// The non-empty text with hash `hash` in language `lang`, if any.
    fn usable(&self, lang: &Vec<char>, hash: i64) -> (r: Option<&String>)
        ensures
            match usable_text(self.textmaps@, lang@, hash) {
                Some(t) => r matches Some(x) && x@ == t,
                None => r is None,
            },
    {
        let ls = &self.textmaps;
        proof {
            lemma_language_index(ls@, lang@);
        }
        let li = match find_language(ls, lang) {
            Some(li) => li,
            None => return None,
        };
        let ts = &ls[li].texts;
        proof {
            lemma_text_index(ts@, hash);
        }
        let mut key_chars: Vec<char> = Vec::new();
        push_signed_decimal(&mut key_chars, hash);
        assert(key_chars@ =~= signed_decimal(hash));
        let key = string_from_chars(&key_chars);
        let ti = match find_text(ts, key.as_str(), Ghost(hash)) {
            Some(ti) => ti,
            None => return None,
        };
        let text = &ts[ti].1;
        if text.as_str().is_empty() {
            None
        } else {
            Some(text)
        }
    }

    /// The text shown for hash `hash` in `language` (see `resolved_text`).
    pub fn text(&self, language: &str, hash: i64) -> (r: String)
        ensures
            r@ == resolved_text(self.textmaps@, language@, hash),
    {
        let lang = to_chars(language);
        if let Some(t) = self.usable(&lang, hash) {
            return strip_rich_text(t.as_str());
        }
        let mut cn: Vec<char> = Vec::new();
        cn.push('C');
        cn.push('N');
        assert(cn@ =~= seq!['C', 'N']);
        if let Some(t) = self.usable(&cn, hash) {
            return strip_rich_text(t.as_str());
        }
        let mut en: Vec<char> = Vec::new();
        en.push('E');
        en.push('N');
        assert(en@ =~= seq!['E', 'N']);
        if let Some(t) = self.usable(&en, hash) {
            return strip_rich_text(t.as_str());
        }
        let mut out: Vec<char> = Vec::new();
        out.push('#');
        push_signed_decimal(&mut out, hash);
        assert(out@ =~= seq!['#'] + signed_decimal(hash));
        string_from_chars(&out)
    }

    /// Where the stat property `property` is.
    fn property(&self, property: &Vec<char>) -> (r: Option<usize>)
        ensures
            r matches Some(j) ==> property_index(self.stat_properties@, property@) == Some(j as int),
            r is None ==> property_index(self.stat_properties@, property@) is None,
    {
        let ps = &self.stat_properties;
        proof {
            lemma_property_index(ps@, property@);
        }
        let mut k: usize = 0;
        assert(ps@.skip(0) == ps@);
        while k < ps.len()
            invariant
                k <= ps@.len(),
                ps@ == self.stat_properties@,
                property_index(ps@, property@) == match property_index(ps@.skip(k as int), property@) {
                    Some(j) => Some(j + k),
                    None => None,
                },
            decreases ps@.len() - k,
        {
            assert(ps@.skip(k as int)[0] == ps@[k as int]);
            assert(ps@.skip(k as int).drop_first() == ps@.skip(k + 1));
            let name = to_chars(ps[k].0.as_str());
            if same_text(&name, property) {
                assert(ps@.skip(k as int)[0].0@ == property@);
                return Some(k);
            }
            k += 1;
        }
        assert(ps@.skip(k as int) =~= Seq::<(String, StatProperty)>::empty());
        None
    }

    /// The shown name of a stat property: its text, or the property name
    /// itself when it is unknown.
    pub fn stat_name(&self, language: &str, property: &str) -> (r: String)
        ensures
            r@ == match property_index(self.stat_properties@, property@) {
                Some(k) => resolved_text(self.textmaps@, language@, self.stat_properties@[k].1.name),
                None => property@,
            },
    {
        let p = to_chars(property);
        proof {
            lemma_property_index(self.stat_properties@, property@);
        }
        match self.property(&p) {
            Some(k) => self.text(language, self.stat_properties[k].1.name),
            None => string_from_chars(&p),
        }
    }

    /// The icon address of a stat property: the asset path of its icon, as
    /// WebP, or nothing when it has no icon.
    pub fn stat_icon_url(&self, property: &str) -> (r: String)
        ensures
            r@ == match property_index(self.stat_properties@, property@) {
                Some(k) => if self.stat_properties@[k].1.icon_name@.len() > 0 {
                    stat_icon_prefix() + replace_text(
                        self.stat_properties@[k].1.icon_name@,
                        seq!['.', 'p', 'n', 'g'],
                        seq!['.', 'w', 'e', 'b', 'p'],
                    )
                } else {
                    Seq::empty()
                },
                None => Seq::empty(),
            },
    {
        let p = to_chars(property);
        proof {
            lemma_property_index(self.stat_properties@, property@);
        }
        match self.property(&p) {
            Some(k) => {
                let icon = to_chars(self.stat_properties[k].1.icon_name.as_str());
                if icon.len() == 0 {
                    return string_from_chars(&Vec::new());
                }
                let mut png: Vec<char> = Vec::new();
                png.push('.');
                png.push('p');
                png.push('n');
                png.push('g');
                let mut webp: Vec<char> = Vec::new();
                webp.push('.');
                webp.push('w');
                webp.push('e');
                webp.push('b');
                webp.push('p');
                assert(png@ =~= seq!['.', 'p', 'n', 'g']);
                assert(webp@ =~= seq!['.', 'w', 'e', 'b', 'p']);
                let replaced = replace_chars(&icon, &png, &webp);
                let mut out = to_chars(STAT_ICON_PREFIX);
                let ghost prefix = out@;
                for j in 0..replaced.len()
                    invariant
                        out@ == prefix + replaced@.take(j as int),
                {
                    out.push(replaced[j]);
                    assert(replaced@.take(j + 1) =~= replaced@.take(j as int).push(replaced@[j as int]));
                }
                assert(replaced@.take(replaced@.len() as int) == replaced@);
                string_from_chars(&out)
            },
            None => string_from_chars(&Vec::new()),
        }
    }
}

/// Where stat icons are, up to the icon's file name.
pub const STAT_ICON_PREFIX: &'static str =
    "https://cdn.neonteam.dev/neonteam/assets/spriteoutput/ui/avatar/icon/";

/// The characters of `STAT_ICON_PREFIX`.
pub open spec fn stat_icon_prefix() -> Seq<char> {
    STAT_ICON_PREFIX@
}

/// A skill-tree point of an avatar as its skill list reads it.
#[derive(Clone, Debug)]
pub struct SkillTreeInfo {
    pub id: u32,
    pub anchor: String,
    pub max_level: u32,
    pub level_up_skills: Vec<u32>,
}

/// The rows of the skill list: the anchor of the tree point, the Chinese
/// and English labels, and whether the row is shown only once levelled.
pub open spec fn skill_anchors() -> Seq<(Seq<char>, Seq<char>, Seq<char>, bool)> {
    seq![
        ("Point01"@, "普攻"@, "Basic"@, false),
        ("Point02"@, "战技"@, "Skill"@, false),
        ("Point03"@, "终结技"@, "Ultimate"@, false),
        ("Point04"@, "天赋"@, "Talent"@, false),
        ("Point05"@, "秘技"@, "Technique"@, false),
        ("Point19"@, "忆灵技"@, "Memo Skill"@, true),
        ("Point20"@, "忆灵天赋"@, "Memo Talent"@, true),
        ("Point21"@, "强化普攻"@, "Enhanced Basic"@, true),
        ("Point22"@, "强化战技"@, "Enhanced Skill"@, true),
    ]
}

/// Row `k` of the skill list (see `skill_anchors`).
fn skill_anchor(k: usize) -> (r: (&'static str, &'static str, &'static str, bool))
    requires
        k < 9,
    ensures
        (r.0@, r.1@, r.2@, r.3) == skill_anchors()[k as int],
{
    match k {
        0 => ("Point01", "普攻", "Basic", false),
        1 => ("Point02", "战技", "Skill", false),
        2 => ("Point03", "终结技", "Ultimate", false),
        3 => ("Point04", "天赋", "Talent", false),
        4 => ("Point05", "秘技", "Technique", false),
        5 => ("Point19", "忆灵技", "Memo Skill", true),
        6 => ("Point20", "忆灵天赋", "Memo Talent", true),
        7 => ("Point21", "强化普攻", "Enhanced Basic", true),
        _ => ("Point22", "强化战技", "Enhanced Skill", true),
    }
}

/// The levels one eidolon's map adds to skill `skill`: the value of the
/// first entry keyed by the skill's decimal id, else 0.
pub open spec fn rank_add(m: Seq<(String, u32)>, skill: u32) -> nat
    decreases m.len(),
{
    if m.len() == 0 {
        0
    } else if m[0].0@ == decimal(skill as nat) {
        m[0].1 as nat
    } else {
        rank_add(m.drop_first(), skill)
    }
}

/// The levels the eidolons up to `rank` add to skill `skill`.
pub open spec fn rank_bonus(ranks: Seq<AvatarRank>, rank: u32, skill: u32) -> nat
    decreases ranks.len(),
{
    if ranks.len() == 0 {
        0
    } else {
        rank_bonus(ranks.drop_last(), rank, skill) + if rank >= ranks.last().rank {
            rank_add(ranks.last().skill_add_level_map@, skill)
        } else {
            0
        }
    }
}

/// A sum over fewer eidolons is no larger.
proof fn lemma_rank_bonus_prefix(ranks: Seq<AvatarRank>, rank: u32, skill: u32, i: int)
    requires
        0 <= i <= ranks.len(),
    ensures
        rank_bonus(ranks.take(i), rank, skill) <= rank_bonus(ranks, rank, skill),
    decreases ranks.len(),
{
    if i < ranks.len() {
        assert(ranks.drop_last().take(i) =~= ranks.take(i));
        lemma_rank_bonus_prefix(ranks.drop_last(), rank, skill, i);
    } else {
        assert(ranks.take(i) =~= ranks);
    }
}

/// The levels one eidolon's map adds to the skill whose decimal id is `key`.
fn rank_add_of(m: &Vec<(String, u32)>, key: &str, Ghost(skill): Ghost<u32>) -> (r: u32)
    requires
        key@ == decimal(skill as nat),
    ensures
        r == rank_add(m@, skill),
{
    let mut i: usize = 0;
    assert(m@.skip(0) =~= m@);
    while i < m.len()
        invariant
            i <= m@.len(),
            key@ == decimal(skill as nat),
            rank_add(m@, skill) == rank_add(m@.skip(i as int), skill),
        decreases m@.len() - i,
    {
        assert(m@.skip(i as int)[0] == m@[i as int]);
        assert(m@.skip(i as int).drop_first() =~= m@.skip(i + 1));
        if same_str(m[i].0.as_str(), key) {
            return m[i].1;
        }
        i += 1;
    }
    assert(m@.skip(i as int).len() == 0);
    0
}

/// The levels the eidolons up to `rank` add to skill `skill_id`.
pub fn additional_skill_level(ranks: &Vec<AvatarRank>, rank: u32, skill_id: u32) -> (r: u32)
    requires
        rank_bonus(ranks@, rank, skill_id) <= u32::MAX,
    ensures
        r == rank_bonus(ranks@, rank, skill_id),
{
    let mut key_chars: Vec<char> = Vec::new();
    push_decimal(&mut key_chars, skill_id as u64);
    assert(key_chars@ =~= decimal(skill_id as nat));
    let key = string_from_chars(&key_chars);
    let mut extra: u32 = 0;
    for i in 0..ranks.len()
        invariant
            key@ == decimal(skill_id as nat),
            rank_bonus(ranks@, rank, skill_id) <= u32::MAX,
            extra == rank_bonus(ranks@.take(i as int), rank, skill_id),
    {
        proof {
            assert(ranks@.take(i + 1).drop_last() =~= ranks@.take(i as int));
            lemma_rank_bonus_prefix(ranks@, rank, skill_id, i + 1);
        }
        if rank >= ranks[i].rank {
            let add = rank_add_of(&ranks[i].skill_add_level_map, key.as_str(), Ghost(skill_id));
            extra = extra + add;
        }
    }
    assert(ranks@.take(ranks@.len() as int) =~= ranks@);
    extra
}

/// The first tree point with anchor `a`.
pub open spec fn anchor_tree(trees: Seq<SkillTreeInfo>, a: Seq<char>) -> Option<SkillTreeInfo>
    decreases trees.len(),
{
    if trees.len() == 0 {
        None
    } else if trees[0].anchor@ == a {
        Some(trees[0])
    } else {
        anchor_tree(trees.drop_first(), a)
    }
}

/// The level of tree point `id`: that of the last entry for it, else 0.
pub open spec fn tree_level(points: Seq<SkillTreePoint>, id: u32) -> u32
    decreases points.len(),
{
    if points.len() == 0 {
        0
    } else if points.last().point_id == id {
        points.last().level
    } else {
        tree_level(points.drop_last(), id)
    }
}

/// The first skill keyed by the decimal id of `id`.
pub open spec fn keyed_skill(skills: Seq<(String, AvatarSkill)>, id: u32) -> Option<AvatarSkill>
    decreases skills.len(),
{
    if skills.len() == 0 {
        None
    } else if skills[0].0@ == decimal(id as nat) {
        Some(skills[0].1)
    } else {
        keyed_skill(skills.drop_first(), id)
    }
}

/// The skill row of anchor `a` (see `skill_anchors`), if shown: the first
/// tree point with that anchor, its level from `points`, the levels the
/// eidolons up to `rank` add to its first levelled skill, and its maximum
/// level; labelled with the linked skill's type text when the row is an
/// optional one and the skill has one, else with the row's label in
/// `lang` (English for `EN`, else Chinese).
pub open spec fn skill_row(
    a: (Seq<char>, Seq<char>, Seq<char>, bool),
    trees: Seq<SkillTreeInfo>,
    points: Seq<SkillTreePoint>,
    ranks: Seq<AvatarRank>,
    rank: u32,
    skills: Seq<(String, AvatarSkill)>,
    texts: Seq<LanguageTexts>,
    lang: Seq<char>,
) -> Option<(Seq<char>, int, int, int)> {
    match anchor_tree(trees, a.0) {
        None => None,
        Some(t) => {
            let level = tree_level(points, t.id);
            if a.3 && level == 0 {
                None
            } else {
                let default_label = if lang == "EN"@ {
                    a.2
                } else {
                    a.1
                };
                let label = if t.level_up_skills@.len() > 0 {
                    match keyed_skill(skills, t.level_up_skills@[0]) {
                        Some(sk) => if a.3 && sk.type_text != 0 {
                            resolved_text(texts, lang, sk.type_text)
                        } else {
                            default_label
                        },
                        None => default_label,
                    }
                } else {
                    default_label
                };
                let plus = if t.level_up_skills@.len() > 0 {
                    rank_bonus(ranks, rank, t.level_up_skills@[0]) as int
                } else {
                    0
                };
                Some((label, level as int, plus, t.max_level as int))
            }
        },
    }
}

/// The skill rows of the first `k` anchors that are shown, in order.
pub open spec fn skill_rows(
    k: nat,
    trees: Seq<SkillTreeInfo>,
    points: Seq<SkillTreePoint>,
    ranks: Seq<AvatarRank>,
    rank: u32,
    skills: Seq<(String, AvatarSkill)>,
    texts: Seq<LanguageTexts>,
    lang: Seq<char>,
) -> Seq<(Seq<char>, int, int, int)>
    decreases k,
{
    if k == 0 {
        Seq::empty()
    } else {
        skill_rows((k - 1) as nat, trees, points, ranks, rank, skills, texts, lang) + match skill_row(
            skill_anchors()[k - 1],
            trees,
            points,
            ranks,
            rank,
            skills,
            texts,
            lang,
        ) {
            Some(r) => seq![r],
            None => Seq::empty(),
        }
    }
}

/// The view of a skill row.
pub open spec fn skill_line_view(l: SkillLine) -> (Seq<char>, int, int, int) {
    (l.label@, l.level as int, l.plus as int, l.max as int)
}

/// The first tree point with anchor `a`, by position.
fn find_anchor_tree(trees: &Vec<SkillTreeInfo>, a: &str) -> (r: Option<usize>)
    ensures
        match anchor_tree(trees@, a@) {
            Some(t) => r matches Some(i) && i < trees@.len() && trees@[i as int] == t,
            None => r is None,
        },
{
    let mut i: usize = 0;
    assert(trees@.skip(0) =~= trees@);
    while i < trees.len()
        invariant
            i <= trees@.len(),
            anchor_tree(trees@, a@) == anchor_tree(trees@.skip(i as int), a@),
        decreases trees@.len() - i,
    {
        assert(trees@.skip(i as int)[0] == trees@[i as int]);
        assert(trees@.skip(i as int).drop_first() =~= trees@.skip(i + 1));
        if same_str(trees[i].anchor.as_str(), a) {
            return Some(i);
        }
        i += 1;
    }
    assert(trees@.skip(i as int).len() == 0);
    None
}

/// The level of tree point `id` (see `tree_level`).
fn point_level(points: &Vec<SkillTreePoint>, id: u32) -> (r: u32)
    ensures
        r == tree_level(points@, id),
{
    let mut level: u32 = 0;
    for i in 0..points.len()
        invariant
            level == tree_level(points@.take(i as int), id),
    {
        assert(points@.take(i + 1).drop_last() =~= points@.take(i as int));
        if points[i].point_id == id {
            level = points[i].level;
        }
    }
    assert(points@.take(points@.len() as int) =~= points@);
    level
}

/// The first skill keyed by the decimal id of `id`, by position.
fn find_keyed_skill(skills: &Vec<(String, AvatarSkill)>, id: u32) -> (r: Option<usize>)
    ensures
        match keyed_skill(skills@, id) {
            Some(sk) => r matches Some(i) && i < skills@.len() && skills@[i as int].1 == sk,
            None => r is None,
        },
{
    let mut key_chars: Vec<char> = Vec::new();
    push_decimal(&mut key_chars, id as u64);
    assert(key_chars@ =~= decimal(id as nat));
    let key = string_from_chars(&key_chars);
    let mut i: usize = 0;
    assert(skills@.skip(0) =~= skills@);
    while i < skills.len()
        invariant
            i <= skills@.len(),
            key@ == decimal(id as nat),
            keyed_skill(skills@, id) == keyed_skill(skills@.skip(i as int), id),
        decreases skills@.len() - i,
    {
        assert(skills@.skip(i as int)[0] == skills@[i as int]);
        assert(skills@.skip(i as int).drop_first() =~= skills@.skip(i + 1));
        if same_str(skills[i].0.as_str(), key.as_str()) {
            return Some(i);
        }
        i += 1;
    }
    assert(skills@.skip(i as int).len() == 0);
    None
}

/// The skill list of an avatar panel (see `skill_rows`): `trees`, `ranks`
/// and `skills` are the avatar's tree points, eidolons and skills (keyed by
/// decimal id) for its current form, `points` its levelled tree points,
/// `rank` its eidolon count, `texts` the game texts and `lang` the panel's
/// language.
pub fn build_skills(
    trees: &Vec<SkillTreeInfo>,
    points: &Vec<SkillTreePoint>,
    ranks: &Vec<AvatarRank>,
    rank: u32,
    skills: &Vec<(String, AvatarSkill)>,
    texts: &ResourceTexts,
    lang: &str,
) -> (out: Vec<SkillLine>)
    requires
        forall|i: int|
            0 <= i < trees@.len() && #[trigger] trees@[i].level_up_skills@.len() > 0 ==> rank_bonus(
                ranks@,
                rank,
                trees@[i].level_up_skills@[0],
            ) <= u32::MAX,
    ensures
        out@.map_values(|l: SkillLine| skill_line_view(l)) == skill_rows(
            9,
            trees@,
            points@,
            ranks@,
            rank,
            skills@,
            texts.textmaps@,
            lang@,
        ),
{
    let english = same_str(lang, "EN");
    let mut out: Vec<SkillLine> = Vec::new();
    for k in 0..9usize
        invariant
            forall|i: int|
                0 <= i < trees@.len() && #[trigger] trees@[i].level_up_skills@.len() > 0 ==> rank_bonus(
                    ranks@,
                    rank,
                    trees@[i].level_up_skills@[0],
                ) <= u32::MAX,
            english == (lang@ == "EN"@),
            out@.map_values(|l: SkillLine| skill_line_view(l)) == skill_rows(
                k as nat,
                trees@,
                points@,
                ranks@,
                rank,
                skills@,
                texts.textmaps@,
                lang@,
            ),
    {
        let ghost before = out@.map_values(|l: SkillLine| skill_line_view(l));
        let (anchor, label_cn, label_en, optional) = skill_anchor(k);
        let ghost row = skill_row(
            skill_anchors()[k as int],
            trees@,
            points@,
            ranks@,
            rank,
            skills@,
            texts.textmaps@,
            lang@,
        );
        match find_anchor_tree(trees, anchor) {
            None => {
                assert(row is None);
            },
            Some(t) => {
                let tree = &trees[t];
                let level = point_level(points, tree.id);
                if optional && level == 0 {
                    assert(row is None);
                } else {
                    let default_label = if english {
                        label_en.to_owned()
                    } else {
                        label_cn.to_owned()
                    };
                    let mut label = default_label;
                    let mut plus: u32 = 0;
                    if tree.level_up_skills.len() > 0 {
                        let first = tree.level_up_skills[0];
                        match find_keyed_skill(skills, first) {
                            Some(j) => {
                                let type_text = skills[j].1.type_text;
                                if optional && type_text != 0 {
                                    label = texts.text(lang, type_text);
                                }
                            },
                            None => {},
                        }
                        plus = additional_skill_level(ranks, rank, first);
                    }
                    let line = SkillLine { label, level, plus, max: tree.max_level };
                    assert(row == Some(skill_line_view(line)));
                    out.push(line);
                }
            },
        }
        assert(out@.map_values(|l: SkillLine| skill_line_view(l)) =~= before + match row {
            Some(r) => seq![r],
            None => Seq::empty(),
        });
    }
    out
}

} // verus!
