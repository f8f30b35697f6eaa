//! The extraction side's plain data: options, per-run summaries and the
//! shared pieces of the documents extractors write.

use vstd::prelude::*;
use crate::reference::{href_id_of, canonical_id_from_href, opt_text};

verus! {

/// Where an extraction reads and writes.
#[derive(Debug, Clone)]
pub struct ExtractionOptions {
    pub src: String,
    pub out: String,
    pub dry_run: bool,
    pub schema_dir: Option<String>,
}

/// Locale extraction reads a second source root, because the reference tree
/// ships only a fraction of the strings its own resources point at.
#[derive(Debug, Clone)]
pub struct LocaleOptions {
    pub common: ExtractionOptions,
    pub language: String,
    pub supplemental_src: Option<String>,
}

#[derive(Debug, Default, Clone)]
pub struct ItemSummary {
    pub emitted: usize,
    pub skipped_auxiliary: usize,
    pub unchanged: usize,
    /// Items per category, in category order.
    pub categories: Vec<(String, usize)>,
}

#[derive(Debug, Default, Clone)]
pub struct ZoneSummary {
    pub zone: String,
    pub map: String,
    pub quests: usize,
    pub spawn_tables: usize,
    pub spawn_points: usize,
    pub locators: usize,
    pub mobs: usize,
    pub routes: usize,
    pub unchanged: usize,
}

#[derive(Debug, Default, Clone)]
pub struct MobKindSummary {
    pub zone: String,
    pub mob_worlds: usize,
    pub mob_kinds: usize,
    pub prototypes: usize,
    pub mob_classes: usize,
    pub mob_qualities: usize,
    pub factions: usize,
    pub unchanged: usize,
}

#[derive(Debug, Default, Clone)]
pub struct LootSummary {
    pub zone: String,
    pub tables: usize,
    pub nodes: usize,
    pub item_index: usize,
    pub dangling_items: Vec<String>,
    pub unchanged: usize,
}

/// The text a validated loot extraction fails with.
pub open spec fn dangling_text(n: nat) -> Seq<char> {
    crate::text::decimal(n) + " loot item references resolve to no item document"@
}

impl LootSummary {
    /// Why a validated loot extraction fails: some loot item reference
    /// resolves to no item document. Unvalidated runs never fail here.
    pub fn validation_failure(&self, validate: bool) -> (r: Option<String>)
        ensures
            r is Some <==> (validate && self.dangling_items@.len() > 0),
            r matches Some(m) ==> m@ == dangling_text(self.dangling_items@.len()),
    {
        if !validate || self.dangling_items.len() == 0 {
            return None;
        }
        let mut out: Vec<char> = Vec::new();
        crate::text::push_decimal(&mut out, self.dangling_items.len() as u64);
        crate::text::push_str(&mut out, " loot item references resolve to no item document");
        Some(crate::text::string_of(out.as_slice()))
    }
}

#[derive(Debug, Default, Clone)]
pub struct LocaleSummary {
    pub zone: String,
    pub language: String,
    pub requested: usize,
    pub resolved: usize,
    pub unresolved: Vec<String>,
    pub from_primary: usize,
    pub from_supplemental: usize,
    pub mismatched: Vec<String>,
    /// How many payloads each detected encoding accounted for.
    pub encodings: Vec<(String, usize)>,
    pub unchanged: usize,
}

/// Where an extracted document came from.
#[derive(Debug, Clone)]
pub struct Provenance {
    pub path: String,
    pub blake3: String,
    pub extractor: String,
    pub source_root: Option<String>,
    /// Prototype documents merged into this one, in application order.
    pub prototype_chain: Option<Vec<String>>,
}

/// A reference to another resource: its canonical id when one is minted,
/// and the verbatim source href.
#[derive(Debug, Clone)]
pub struct ResourceRef {
    pub id: Option<String>,
    pub href: String,
}

/// A reference to the resource an href names.
pub fn resource_ref(href: &str) -> (r: ResourceRef)
    ensures
        opt_text(r.id) == href_id_of(href@),
        r.href@ == href@,
{
    ResourceRef {
        id: canonical_id_from_href(href),
        href: crate::text::string_of(crate::text::chars_of(href).as_slice()),
    }
}

/// The localization keys an extracted document carries.
#[derive(Debug, Clone)]
pub struct LocRefs {
    pub name: Option<String>,
    pub description: Option<String>,
    pub bind_description: Option<String>,
    pub goal: Option<String>,
    pub start: Option<String>,
    pub check: Option<String>,
    pub finish: Option<String>,
    pub title: Option<String>,
}

impl Default for LocRefs {
    /// No key at all.
    fn default() -> (r: LocRefs)
        ensures
            r.name is None && r.description is None && r.bind_description is None && r.goal is None
                && r.start is None && r.check is None && r.finish is None && r.title is None,
    {
        LocRefs {
            name: None,
            description: None,
            bind_description: None,
            goal: None,
            start: None,
            check: None,
            finish: None,
            title: None,
        }
    }
}

impl LocRefs {
    /// Whether the document carries no key at all.
    pub fn is_empty(&self) -> (r: bool)
        ensures
            r == (self.name is None && self.description is None && self.bind_description is None
                && self.goal is None && self.start is None && self.check is None && self.finish is None
                && self.title is None),
    {
        self.name.is_none() && self.description.is_none() && self.bind_description.is_none()
            && self.goal.is_none() && self.start.is_none() && self.check.is_none()
            && self.finish.is_none() && self.title.is_none()
    }
}

#[derive(Debug, Clone)]
pub struct VendorPrice {
    pub sell: Option<i64>,
    pub buy: Option<i64>,
}

#[derive(Debug, Clone)]
pub struct QuestPrerequisite {
    pub quest: ResourceRef,
    pub status: Option<String>,
}

#[derive(Debug, Clone)]
pub struct RewardItem {
    pub item: ResourceRef,
    pub count: i64,
    pub hidden: Option<bool>,
}

#[derive(Debug, Clone)]
pub struct FactionRelation {
    pub faction: String,
    pub stance: String,
}

/// The index that makes the item catalogue addressable without walking it.
#[derive(Debug, Clone)]
pub struct ItemIndexDocument {
    pub schema_version: u8,
    pub id: String,
    pub kind: String,
    pub count: usize,
    /// Canonical item id to the ruleset-relative file that defines it, in id
    /// order.
    pub entries: Vec<(String, String)>,
}

#[derive(Debug, Clone)]
pub struct LocaleEntry {
    pub key: String,
    pub text: String,
    /// Set only when this key came from a root other than the document's.
    pub source_root: Option<String>,
}

/// What one zone's script extraction wrote and counted.
#[derive(Debug, Default, Clone)]
pub struct ScriptSummary {
    pub zone: String,
    pub quest_scripts: usize,
    pub triggers: usize,
    pub counters: usize,
    pub nodes: usize,
    pub implemented: usize,
    pub inert: usize,
    pub refused: usize,
    /// Refused-tier opcodes and how often each appears, by opcode.
    pub refused_opcodes: Vec<(String, usize)>,
    /// Canonical ids of the root-element-discovered trigger set, ascending.
    pub trigger_ids: Vec<String>,
    /// References no canonical namespace models yet, minted under `ext.`.
    pub external_resources: Vec<String>,
    pub unchanged: usize,
}

/// The public JSON Schemas an extracted document can be checked against.
#[derive(Debug, Clone, Copy, PartialEq, Eq, PartialOrd, Ord)]
pub enum SchemaKind {
    Item,
    Quest,
    Spawn,
    Route,
    MobKind,
    Faction,
    LootTable,
    Locale,
}

pub open spec fn schema_file_of(k: SchemaKind) -> Seq<char> {
    match k {
        SchemaKind::Item => "item.schema.json"@,
        SchemaKind::Quest => "quest.schema.json"@,
        SchemaKind::Spawn => "spawn.schema.json"@,
        SchemaKind::Route => "route.schema.json"@,
        SchemaKind::MobKind => "mobkind.schema.json"@,
        SchemaKind::Faction => "faction.schema.json"@,
        SchemaKind::LootTable => "loot-table.schema.json"@,
        SchemaKind::Locale => "locale.schema.json"@,
    }
}

impl SchemaKind {
    /// The schema file that checks documents of this kind.
    pub fn file_name(self) -> (r: &'static str)
        ensures
            r@ == schema_file_of(self),
    {
        match self {
            SchemaKind::Item => "item.schema.json",
            SchemaKind::Quest => "quest.schema.json",
            SchemaKind::Spawn => "spawn.schema.json",
            SchemaKind::Route => "route.schema.json",
            SchemaKind::MobKind => "mobkind.schema.json",
            SchemaKind::Faction => "faction.schema.json",
            SchemaKind::LootTable => "loot-table.schema.json",
            SchemaKind::Locale => "locale.schema.json",
        }
    }
}

/// The order a mob quality ranks in, from critter to raid boss; an unknown
/// quality has none.
pub open spec fn quality_rank_of(q: Seq<char>) -> Option<u8> {
    if q == "CRITTER"@ { Some(0u8) }
    else if q == "COMMON"@ { Some(1u8) }
    else if q == "FLAVOR_ELITE"@ { Some(2u8) }
    else if q == "MINI_BOSS"@ { Some(3u8) }
    else if q == "ELITE"@ { Some(4u8) }
    else if q == "RAID_ELITE"@ { Some(5u8) }
    else if q == "BOSS"@ { Some(6u8) }
    else if q == "RAID_BOSS"@ { Some(7u8) }
    else { None }
}

pub fn quality_rank(quality: &str) -> (r: Option<u8>)
    ensures
        r == quality_rank_of(quality@),
{
    let q = crate::text::chars_of(quality);
    let s = q.as_slice();
    if crate::text::eq_str(s, "CRITTER") { Some(0) }
    else if crate::text::eq_str(s, "COMMON") { Some(1) }
    else if crate::text::eq_str(s, "FLAVOR_ELITE") { Some(2) }
    else if crate::text::eq_str(s, "MINI_BOSS") { Some(3) }
    else if crate::text::eq_str(s, "ELITE") { Some(4) }
    else if crate::text::eq_str(s, "RAID_ELITE") { Some(5) }
    else if crate::text::eq_str(s, "BOSS") { Some(6) }
    else if crate::text::eq_str(s, "RAID_BOSS") { Some(7) }
    else { None }
}

/// A faction's stance toward the player from its default reputation:
/// friendly above zero, neutral at or below it, hostile when none is given.
pub open spec fn default_stance_of(reputation: Option<i64>) -> Seq<char> {
    match reputation {
        Some(v) => if v > 0 { "friendly"@ } else { "neutral"@ },
        None => "hostile"@,
    }
}

pub fn default_stance(reputation: Option<i64>) -> (r: &'static str)
    ensures
        r@ == default_stance_of(reputation),
{
    match reputation {
        Some(v) => if v > 0 { "friendly" } else { "neutral" },
        None => "hostile",
    }
}

} // verus!
