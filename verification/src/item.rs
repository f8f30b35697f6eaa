//! One item resource as extracted: its identity, references, counts, flags,
//! and everything else it says kept verbatim. Stat values and combat numbers
//! are decimal text here; reading them as floating-point numbers, and
//! dropping what does not read, happens where the document is written.

use vstd::prelude::*;
use crate::model::{LocRefs, Provenance, ResourceRef, VendorPrice, resource_ref};
use crate::overlay::{Doc, entries_view};
use crate::reference::{href_id_of, slug, slug_of, opt_text};
use crate::script::{parse_i64_of, parse_u64_of};
use crate::text::{chars_of, string_of};
use crate::xml::{
    XmlDoc, XmlElement, child_of, named_children, text_of, href_of, parse_bool_of, opt_string, extra_fields_of,
    str_views,
};

verus! {

/// A stat bonus: the stat's name and its value's text.
#[derive(Debug, Clone)]
pub struct StatText {
    pub stat: String,
    pub value: String,
}

/// The combat numbers of an item's functional part, as text.
#[derive(Debug, Clone, Default)]
pub struct CombatText {
    pub armor: Option<String>,
    pub min_damage: Option<String>,
    pub max_damage: Option<String>,
    pub weapon_speed: Option<String>,
    pub spell_power: Option<String>,
    /// Already a slug; not a number.
    pub damage_element: Option<String>,
    pub resist_divine: Option<String>,
    pub resist_elemental: Option<String>,
    pub resist_nature: Option<String>,
}

/// One extracted item.
#[derive(Debug)]
pub struct ItemDocument {
    pub schema_version: u8,
    pub id: String,
    pub category: String,
    pub source_type: String,
    pub resource_id: Option<u64>,
    pub sys_name: Option<String>,
    pub loc_ref: LocRefs,
    pub image_ref: Option<String>,
    pub visual_ref: Option<String>,
    pub level: Option<i64>,
    pub required_level: Option<i64>,
    pub quality: Option<ResourceRef>,
    pub slot: Option<String>,
    pub item_class: Option<ResourceRef>,
    pub item_category: Option<ResourceRef>,
    pub binding: Option<String>,
    pub stack_limit: Option<i64>,
    pub vendor_price: Option<VendorPrice>,
    /// Each `statBonuses` entry that names a stat and gives a value.
    pub stats: Vec<StatText>,
    /// Present when the item has a functional part.
    pub combat: Option<CombatText>,
    pub capacity: Option<i64>,
    pub spell_ref: Option<String>,
    /// Boolean flags the source sets, by output name, ascending.
    pub flags: Vec<(String, bool)>,
    pub extra: Vec<(String, Doc)>,
    pub source: Provenance,
}

/// The fields an item maps, which are therefore not kept as extra.
pub open spec fn item_mapped() -> Seq<Seq<char>> {
    seq![
        "Header"@, "sysName"@, "name"@, "description"@, "bindDescription"@, "image"@, "visualElement"@, "level"@,
        "requiredLevel"@, "quality"@, "slot"@, "itemClass"@, "category"@, "binding"@, "stackLimit"@, "sellPrice"@,
        "buyPrice"@, "spell"@, "includeInBoxes"@, "customSellPrice"@, "customBuyPrice"@, "isQuestRelated"@,
        "canDrop"@, "notForItemMall"@, "nameChecked"@
    ]
}

/// The boolean flags, as (source field, output name), by output name.
pub open spec fn item_flags() -> Seq<(Seq<char>, Seq<char>)> {
    seq![
        ("canDrop"@, "can_drop"@), ("customBuyPrice"@, "custom_buy_price"@),
        ("customSellPrice"@, "custom_sell_price"@), ("includeInBoxes"@, "include_in_boxes"@),
        ("nameChecked"@, "name_checked"@), ("notForItemMall"@, "not_for_item_mall"@),
        ("isQuestRelated"@, "quest_related"@)
    ]
}

pub open spec fn opt_i64(es: Seq<XmlElement>, n: int, name: Seq<char>) -> Option<i64> {
    match text_of(es, n, name) {
        Some(t) => parse_i64_of(t),
        None => None,
    }
}

pub open spec fn opt_bool(es: Seq<XmlElement>, n: int, name: Seq<char>) -> Option<bool> {
    match text_of(es, n, name) {
        Some(t) => parse_bool_of(t),
        None => None,
    }
}

pub open spec fn opt_slug(t: Option<Seq<char>>) -> Option<Seq<char>> {
    match t {
        Some(v) => Some(slug_of(v)),
        None => None,
    }
}

/// A reference read from `href`: its id when one is minted, and the href.
pub open spec fn ref_of(r: Option<ResourceRef>, href: Option<Seq<char>>) -> bool {
    match (r, href) {
        (Some(x), Some(h)) => opt_text(x.id) == href_id_of(h) && x.href@ == h,
        (None, None) => true,
        _ => false,
    }
}

/// The flags the source sets, in the order given.
pub open spec fn flags_of(es: Seq<XmlElement>, n: int, fs: Seq<(Seq<char>, Seq<char>)>) -> Seq<(Seq<char>, bool)>
    decreases fs.len(),
{
    if fs.len() == 0 {
        Seq::empty()
    } else {
        let rest = flags_of(es, n, fs.drop_last());
        match opt_bool(es, n, fs.last().0) {
            Some(b) => rest.push((fs.last().1, b)),
            None => rest,
        }
    }
}

/// The stat entries that name a stat and give a value, in order.
pub open spec fn stats_of(es: Seq<XmlElement>, entries: Seq<int>) -> Seq<(Seq<char>, Seq<char>)>
    decreases entries.len(),
{
    if entries.len() == 0 {
        Seq::empty()
    } else {
        let rest = stats_of(es, entries.drop_last());
        match (text_of(es, entries.last(), "stat"@), text_of(es, entries.last(), "value"@)) {
            (Some(s), Some(v)) => rest.push((s, v)),
            _ => rest,
        }
    }
}

/// The stat entries of an item: the `Item`s of its functional part's
/// `statBonuses`.
pub open spec fn item_stats(es: Seq<XmlElement>) -> Seq<(Seq<char>, Seq<char>)> {
    match child_of(es, 0, "functionalPart"@) {
        Some(f) => match child_of(es, f, "statBonuses"@) {
            Some(b) => stats_of(es, named_children(es, b, "Item"@, es.len() as int)),
            None => Seq::empty(),
        },
        None => Seq::empty(),
    }
}

pub open spec fn stat_views(v: Seq<StatText>) -> Seq<(Seq<char>, Seq<char>)> {
    v.map_values(|s: StatText| (s.stat@, s.value@))
}

pub open spec fn flag_views(v: Seq<(String, bool)>) -> Seq<(Seq<char>, bool)> {
    v.map_values(|f: (String, bool)| (f.0@, f.1))
}

/// The combat text of functional part `f`.
pub open spec fn combat_of(c: CombatText, es: Seq<XmlElement>, f: int) -> bool {
    &&& opt_string(c.armor) == text_of(es, f, "armor"@)
    &&& opt_string(c.min_damage) == text_of(es, f, "minDamage"@)
    &&& opt_string(c.max_damage) == text_of(es, f, "maxDamage"@)
    &&& opt_string(c.weapon_speed) == text_of(es, f, "weaponSpeed"@)
    &&& opt_string(c.spell_power) == text_of(es, f, "spellPower"@)
    &&& opt_string(c.damage_element) == opt_slug(text_of(es, f, "damageElement"@))
    &&& opt_string(c.resist_divine) == text_of(es, f, "resistDivine"@)
    &&& opt_string(c.resist_elemental) == text_of(es, f, "resistElemental"@)
    &&& opt_string(c.resist_nature) == text_of(es, f, "resistNature"@)
}

/// A functional part that sets none of the combat fields.
pub open spec fn combat_fields_absent(es: Seq<XmlElement>, f: int) -> bool {
    &&& text_of(es, f, "armor"@) is None
    &&& text_of(es, f, "minDamage"@) is None
    &&& text_of(es, f, "maxDamage"@) is None
    &&& text_of(es, f, "weaponSpeed"@) is None
    &&& text_of(es, f, "spellPower"@) is None
    &&& text_of(es, f, "damageElement"@) is None
    &&& text_of(es, f, "resistDivine"@) is None
    &&& text_of(es, f, "resistElemental"@) is None
    &&& text_of(es, f, "resistNature"@) is None
}

/// What an item document holds, read from its source.
pub open spec fn item_fields(d: ItemDocument, es: Seq<XmlElement>, id: Seq<char>, category: Seq<char>) -> bool {
    let functional = child_of(es, 0, "functionalPart"@);
    let sell = opt_i64(es, 0, "sellPrice"@);
    let buy = opt_i64(es, 0, "buyPrice"@);
    &&& d.schema_version == 1
    &&& d.id@ == id
    &&& d.category@ == category
    &&& d.source_type@ == es[0].name@
    &&& d.resource_id == match child_of(es, 0, "Header"@) {
        Some(h) => match text_of(es, h, "resourceId"@) {
            Some(t) => parse_u64_of(t),
            None => None,
        },
        None => None,
    }
    &&& opt_string(d.sys_name) == text_of(es, 0, "sysName"@)
    &&& opt_string(d.loc_ref.name) == href_of(es, 0, "name"@)
    &&& opt_string(d.loc_ref.description) == href_of(es, 0, "description"@)
    &&& opt_string(d.loc_ref.bind_description) == href_of(es, 0, "bindDescription"@)
    &&& d.loc_ref.goal is None && d.loc_ref.start is None && d.loc_ref.check is None && d.loc_ref.finish is None
    &&& d.loc_ref.title is None
    &&& opt_string(d.image_ref) == href_of(es, 0, "image"@)
    &&& opt_string(d.visual_ref) == href_of(es, 0, "visualElement"@)
    &&& d.level == opt_i64(es, 0, "level"@)
    &&& d.required_level == opt_i64(es, 0, "requiredLevel"@)
    &&& ref_of(d.quality, href_of(es, 0, "quality"@))
    &&& opt_string(d.slot) == opt_slug(text_of(es, 0, "slot"@))
    &&& ref_of(d.item_class, href_of(es, 0, "itemClass"@))
    &&& ref_of(d.item_category, href_of(es, 0, "category"@))
    &&& opt_string(d.binding) == opt_slug(text_of(es, 0, "binding"@))
    &&& d.stack_limit == opt_i64(es, 0, "stackLimit"@)
    &&& (if sell is Some || buy is Some {
        d.vendor_price matches Some(p) && p.sell == sell && p.buy == buy
    } else {
        d.vendor_price is None
    })
    &&& stat_views(d.stats@) == item_stats(es)
    &&& match functional {
        Some(f) => if combat_fields_absent(es, f) {
            d.combat is None
        } else {
            d.combat matches Some(c) && combat_of(c, es, f)
        },
        None => d.combat is None,
    }
    &&& d.capacity == match functional {
        Some(f) => opt_i64(es, f, "baseSize"@),
        None => None,
    }
    &&& opt_string(d.spell_ref) == href_of(es, 0, "spell"@)
    &&& flag_views(d.flags@) == flags_of(es, 0, item_flags())
    &&& entries_view(d.extra@) == extra_fields_of(es, 0, item_mapped())
}

fn own(s: &str) -> (out: String)
    ensures
        out@ == s@,
{
    string_of(chars_of(s).as_slice())
}

fn slug_opt(t: Option<String>) -> (r: Option<String>)
    ensures
        opt_string(r) == opt_slug(opt_string(t)),
{
    match t {
        Some(v) => Some(slug(v.as_str())),
        None => None,
    }
}

fn ref_opt(h: Option<String>) -> (r: Option<ResourceRef>)
    ensures
        ref_of(r, opt_string(h)),
{
    match h {
        Some(v) => Some(resource_ref(v.as_str())),
        None => None,
    }
}

fn combat_text(doc: &XmlDoc, f: usize) -> (c: CombatText)
    ensures
        combat_of(c, doc@, f as int),
{
    CombatText {
        armor: doc.text(f, "armor"),
        min_damage: doc.text(f, "minDamage"),
        max_damage: doc.text(f, "maxDamage"),
        weapon_speed: doc.text(f, "weaponSpeed"),
        spell_power: doc.text(f, "spellPower"),
        damage_element: slug_opt(doc.text(f, "damageElement")),
        resist_divine: doc.text(f, "resistDivine"),
        resist_elemental: doc.text(f, "resistElemental"),
        resist_nature: doc.text(f, "resistNature"),
    }
}

/// The combat text, dropped when it holds no field at all.
fn combat_if_any(c: CombatText) -> (r: Option<CombatText>)
    ensures
        (c.armor is None && c.min_damage is None && c.max_damage is None && c.weapon_speed is None
            && c.spell_power is None && c.damage_element is None && c.resist_divine is None
            && c.resist_elemental is None && c.resist_nature is None) ==> r is None,
        !(c.armor is None && c.min_damage is None && c.max_damage is None && c.weapon_speed is None
            && c.spell_power is None && c.damage_element is None && c.resist_divine is None
            && c.resist_elemental is None && c.resist_nature is None) ==> r == Some(c),
{
    if c.armor.is_none() && c.min_damage.is_none() && c.max_damage.is_none() && c.weapon_speed.is_none()
        && c.spell_power.is_none() && c.damage_element.is_none() && c.resist_divine.is_none()
        && c.resist_elemental.is_none() && c.resist_nature.is_none() {
        None
    } else {
        Some(c)
    }
}

fn item_stat_texts(doc: &XmlDoc) -> (out: Vec<StatText>)
    ensures
        stat_views(out@) == item_stats(doc@),
{
    let mut out: Vec<StatText> = Vec::new();
    assert(stat_views(out@) =~= Seq::<(Seq<char>, Seq<char>)>::empty());
    let f = match doc.child(0, "functionalPart") {
        Some(f) => f,
        None => return out,
    };
    let b = match doc.child(f, "statBonuses") {
        Some(b) => b,
        None => return out,
    };
    let items = doc.children(b, "Item");
    let ghost iv = items@.map_values(|j: usize| j as int);
    let mut i: usize = 0;
    assert(iv.take(0) =~= Seq::<int>::empty());
    while i < items.len()
        invariant
            i <= items@.len(),
            iv == items@.map_values(|j: usize| j as int),
            iv == named_children(doc@, b as int, "Item"@, doc@.len() as int),
            stat_views(out@) == stats_of(doc@, iv.take(i as int)),
        decreases items@.len() - i,
    {
        assert(iv.take(i + 1).drop_last() =~= iv.take(i as int));
        assert(iv.take(i + 1).last() == items@[i as int] as int);
        let e = items[i];
        match (doc.text(e, "stat"), doc.text(e, "value")) {
            (Some(s), Some(v)) => {
                let ghost before = stat_views(out@);
                let ghost sv = (s@, v@);
                out.push(StatText { stat: s, value: v });
                assert(stat_views(out@) =~= before.push(sv));
            },
            _ => {},
        }
        i = i + 1;
    }
    assert(iv.take(items@.len() as int) =~= iv);
    out
}

fn item_flag_values(doc: &XmlDoc) -> (out: Vec<(String, bool)>)
    ensures
        flag_views(out@) == flags_of(doc@, 0, item_flags()),
{
    let mut pairs: Vec<(&str, &str)> = Vec::new();
    pairs.push(("canDrop", "can_drop"));
    pairs.push(("customBuyPrice", "custom_buy_price"));
    pairs.push(("customSellPrice", "custom_sell_price"));
    pairs.push(("includeInBoxes", "include_in_boxes"));
    pairs.push(("nameChecked", "name_checked"));
    pairs.push(("notForItemMall", "not_for_item_mall"));
    pairs.push(("isQuestRelated", "quest_related"));
    let ghost pv = pairs@.map_values(|p: (&str, &str)| (p.0@, p.1@));
    assert(pv =~= item_flags());
    let mut out: Vec<(String, bool)> = Vec::new();
    let mut i: usize = 0;
    assert(pv.take(0) =~= Seq::<(Seq<char>, Seq<char>)>::empty());
    assert(flag_views(out@) =~= Seq::<(Seq<char>, bool)>::empty());
    while i < pairs.len()
        invariant
            i <= pairs@.len(),
            pv == pairs@.map_values(|p: (&str, &str)| (p.0@, p.1@)),
            flag_views(out@) == flags_of(doc@, 0, pv.take(i as int)),
        decreases pairs@.len() - i,
    {
        assert(pv.take(i + 1).drop_last() =~= pv.take(i as int));
        assert(pv.take(i + 1).last() == pv[i as int]);
        let (source_name, output_name) = pairs[i];
        match doc.bool_value(0, source_name) {
            Some(b) => {
                let ghost before = flag_views(out@);
                out.push((own(output_name), b));
                assert(flag_views(out@) =~= before.push((output_name@, b)));
            },
            None => {},
        }
        i = i + 1;
    }
    assert(pv.take(pairs@.len() as int) =~= pv);
    out
}

/// The names of `item_mapped`, for the extra-field scan.
fn item_excluded() -> (out: Vec<&'static str>)
    ensures
        str_views(out@) == item_mapped(),
{
    let mut excluded: Vec<&'static str> = Vec::new();
    excluded.push("Header");
    excluded.push("sysName");
    excluded.push("name");
    excluded.push("description");
    excluded.push("bindDescription");
    excluded.push("image");
    excluded.push("visualElement");
    excluded.push("level");
    excluded.push("requiredLevel");
    excluded.push("quality");
    excluded.push("slot");
    excluded.push("itemClass");
    excluded.push("category");
    excluded.push("binding");
    excluded.push("stackLimit");
    excluded.push("sellPrice");
    excluded.push("buyPrice");
    excluded.push("spell");
    excluded.push("includeInBoxes");
    excluded.push("customSellPrice");
    excluded.push("customBuyPrice");
    excluded.push("isQuestRelated");
    excluded.push("canDrop");
    excluded.push("notForItemMall");
    excluded.push("nameChecked");
    assert(str_views(excluded@) =~= item_mapped());
    excluded
}

/// An item document from its parsed resource, its id and its category.
pub fn item_document(doc: &XmlDoc, id: String, category: String, source: Provenance) -> (d: ItemDocument)
    ensures
        item_fields(d, doc@, id@, category@),
        d.source == source,
{
    let n = doc.len();
    let functional = doc.child(0, "functionalPart");
    let sell = doc.i64_value(0, "sellPrice");
    let buy = doc.i64_value(0, "buyPrice");
    let vendor_price = if sell.is_some() || buy.is_some() { Some(VendorPrice { sell, buy }) } else { None };
    let (combat, capacity) = match functional {
        Some(f) => (combat_if_any(combat_text(doc, f)), doc.i64_value(f, "baseSize")),
        None => (None, None),
    };
    let excluded = item_excluded();
    ItemDocument {
        schema_version: 1,
        id,
        category,
        source_type: own(doc.element(0).name.as_str()),
        resource_id: doc.resource_id(0),
        sys_name: doc.text(0, "sysName"),
        loc_ref: LocRefs {
            name: doc.href(0, "name"),
            description: doc.href(0, "description"),
            bind_description: doc.href(0, "bindDescription"),
            goal: None,
            start: None,
            check: None,
            finish: None,
            title: None,
        },
        image_ref: doc.href(0, "image"),
        visual_ref: doc.href(0, "visualElement"),
        level: doc.i64_value(0, "level"),
        required_level: doc.i64_value(0, "requiredLevel"),
        quality: ref_opt(doc.href(0, "quality")),
        slot: slug_opt(doc.text(0, "slot")),
        item_class: ref_opt(doc.href(0, "itemClass")),
        item_category: ref_opt(doc.href(0, "category")),
        binding: slug_opt(doc.text(0, "binding")),
        stack_limit: doc.i64_value(0, "stackLimit"),
        vendor_price,
        stats: item_stat_texts(doc),
        combat,
        capacity,
        spell_ref: doc.href(0, "spell"),
        flags: item_flag_values(doc),
        extra: doc.extra_fields(0, excluded.as_slice()),
        source,
    }
}

/// An item document carries combat numbers exactly when its source has a
/// functional part that sets at least one combat field, and a vendor price
/// exactly when the source sets a sell or a buy price, holding both as read.
pub proof fn lemma_item_optional_parts(d: ItemDocument, es: Seq<XmlElement>, id: Seq<char>, category: Seq<char>)
    requires
        item_fields(d, es, id, category),
    ensures
        d.combat is Some <==> (child_of(es, 0, "functionalPart"@) matches Some(f) && !combat_fields_absent(es, f)),
        d.vendor_price is Some <==> (opt_i64(es, 0, "sellPrice"@) is Some || opt_i64(es, 0, "buyPrice"@) is Some),
        d.vendor_price matches Some(p) ==> p.sell == opt_i64(es, 0, "sellPrice"@) && p.buy == opt_i64(es, 0, "buyPrice"@),
{
}

} // verus!
