//! The authored documents a build reads, as the library sees them: the ids,
//! references and localization keys its logic works on. Reading and
//! deserialising the YAML happens outside the library.

use vstd::prelude::*;

verus! {

/// Where the authored documents sit under the source root.
#[derive(Clone, Copy, Debug, PartialEq, Eq)]
pub enum Layout {
    /// One zone directory per zone plus the ruleset-global resource
    /// directories beside it.
    Ruleset,
    /// A flat directory of hand-authored documents.
    Flat,
}

/// Where an extracted document came from; only the path is read, to resolve a
/// relative localization key against the directory it was authored in.
#[derive(Clone, Debug, Default)]
pub struct Provenance {
    pub path: String,
}

/// The localization keys a document carries.
#[derive(Clone, Debug, Default)]
pub struct LocRef {
    pub name: Option<String>,
    pub description: Option<String>,
    pub title: Option<String>,
    pub goal: Option<String>,
    pub start: Option<String>,
    pub check: Option<String>,
    pub finish: Option<String>,
}

/// `(field, value)` for a present key.
pub open spec fn entry_of(field: Seq<char>, value: Option<String>) -> Seq<(Seq<char>, Seq<char>)> {
    match value {
        Some(v) => seq![(field, v@)],
        None => Seq::empty(),
    }
}

/// Every key a `LocRef` declares, in field order.
pub open spec fn loc_entries(l: LocRef) -> Seq<(Seq<char>, Seq<char>)> {
    entry_of("name"@, l.name) + entry_of("description"@, l.description) + entry_of("title"@, l.title)
        + entry_of("goal"@, l.goal) + entry_of("start"@, l.start) + entry_of("check"@, l.check)
        + entry_of("finish"@, l.finish)
}

pub open spec fn entry_views(v: Seq<(&'static str, String)>) -> Seq<(Seq<char>, Seq<char>)> {
    v.map_values(|e: (&'static str, String)| (e.0@, e.1@))
}

fn push_entry(out: &mut Vec<(&'static str, String)>, field: &'static str, value: &Option<String>)
    ensures
        entry_views(final(out)@) == entry_views(old(out)@) + entry_of(field@, *value),
{
    let ghost before = entry_views(out@);
    match value {
        Some(v) => {
            out.push((field, v.clone()));
            assert(entry_views(out@) =~= before + entry_of(field@, *value));
        },
        None => {
            assert(entry_views(out@) =~= before + entry_of(field@, *value));
        },
    }
}

impl LocRef {
    /// Every key this document declares, as `(field, authored value)`.
    pub fn entries(&self) -> (out: Vec<(&'static str, String)>)
        ensures
            entry_views(out@) == loc_entries(*self),
    {
        let mut out: Vec<(&'static str, String)> = Vec::new();
        assert(entry_views(out@) =~= Seq::empty());
        push_entry(&mut out, "name", &self.name);
        push_entry(&mut out, "description", &self.description);
        push_entry(&mut out, "title", &self.title);
        push_entry(&mut out, "goal", &self.goal);
        push_entry(&mut out, "start", &self.start);
        push_entry(&mut out, "check", &self.check);
        push_entry(&mut out, "finish", &self.finish);
        assert(entry_views(out@) =~= loc_entries(*self));
        out
    }
}

/// A reference to another authored document by canonical id.
#[derive(Clone, Debug, Default)]
pub struct ObjectRef {
    pub id: Option<String>,
}

pub open spec fn ref_target(r: ObjectRef) -> Option<Seq<char>> {
    match r.id {
        Some(id) => Some(id@),
        None => None,
    }
}

pub open spec fn opt_ref_target(r: Option<ObjectRef>) -> Option<Seq<char>> {
    match r {
        Some(o) => ref_target(o),
        None => None,
    }
}

impl ObjectRef {
    pub fn id(&self) -> (out: Option<&str>)
        ensures
            match (out, ref_target(*self)) {
                (Some(a), Some(b)) => a@ == b,
                (None, None) => true,
                _ => false,
            },
    {
        match &self.id {
            Some(id) => Some(id.as_str()),
            None => None,
        }
    }
}

/// One zone.
#[derive(Debug)]
pub struct ZoneDocument {
    pub id: String,
    pub loc_ref: LocRef,
    pub source: Provenance,
}

#[derive(Clone, Copy, Debug)]
pub struct LevelRange {
    pub min: u32,
    pub max: u32,
}

#[derive(Clone, Copy, Debug)]
pub struct ZoneInstance {
    pub instanced: bool,
    pub max_players: u32,
}

/// One creature record's references.
#[derive(Debug)]
pub struct MobDocument {
    pub id: String,
    pub zone: String,
    pub loc_ref: LocRef,
    pub mob_kind: Option<ObjectRef>,
    pub quality: Option<ObjectRef>,
    pub faction: Option<ObjectRef>,
    pub loot_table: Option<ObjectRef>,
    pub abilities: Vec<ObjectRef>,
    /// Quests this creature offers.
    pub quests: Vec<ObjectRef>,
    pub source: Provenance,
}

/// Which of the three creature-taxonomy record types a document is.
#[derive(Clone, Copy, Debug, PartialEq, Eq)]
pub enum TaxonomyKind {
    Kind,
    Class,
    Quality,
}

/// A `MobKind`, `MobClass` or `MobQuality` document's references.
#[derive(Debug)]
pub struct MobKindDocument {
    pub id: String,
    pub taxonomy: Option<TaxonomyKind>,
    pub loc_ref: LocRef,
    pub prototype: Option<ObjectRef>,
    pub mob_class: Option<ObjectRef>,
    pub quality: Option<ObjectRef>,
    pub source: Provenance,
}

#[derive(Debug)]
pub struct AbilityDocument {
    pub id: String,
    pub loc_ref: LocRef,
    pub source: Provenance,
}

#[derive(Debug)]
pub struct FactionDocument {
    pub id: String,
    pub loc_ref: LocRef,
    pub relations: Vec<FactionRelationDocument>,
    pub source: Provenance,
}

#[derive(Debug)]
pub struct FactionRelationDocument {
    pub faction: String,
    pub stance: String,
}

#[derive(Debug)]
pub struct ItemDocument {
    pub id: String,
    pub loc_ref: LocRef,
    pub source: Provenance,
}

#[derive(Clone, Copy, Debug, Default)]
pub struct VendorPriceDocument {
    pub sell: i64,
    pub buy: i64,
}

#[derive(Debug)]
pub struct LootTableDocument {
    pub id: String,
    pub root: LootNodeDocument,
}

/// One node of a loot tree, the union of every node shape.
#[derive(Debug)]
pub struct LootNodeDocument {
    pub node: String,
    pub entries: Vec<LootNodeDocument>,
    pub item: Option<ObjectRef>,
    pub min_number: Option<i32>,
    pub max_number: Option<i32>,
}

#[derive(Debug)]
pub struct QuestDocument {
    pub id: String,
    pub zone: String,
    pub loc_ref: LocRef,
    pub starter: Option<ObjectRef>,
    pub finisher: Option<ObjectRef>,
    pub prerequisites: Vec<QuestPrerequisiteDocument>,
    pub objectives: Vec<QuestObjectiveDocument>,
    pub rewards: QuestRewardsDocument,
    pub source: Provenance,
}

#[derive(Debug)]
pub struct QuestPrerequisiteDocument {
    pub quest: ObjectRef,
    pub status: Option<String>,
}

#[derive(Debug)]
pub struct QuestObjectiveDocument {
    pub objective_id: String,
    pub kind: String,
    pub targets: Vec<ObjectRef>,
}

#[derive(Debug, Default)]
pub struct QuestRewardsDocument {
    pub experience: i64,
    pub money: i64,
    pub honor: i64,
    pub mandatory_items: Vec<QuestRewardItemDocument>,
    pub alternative_items: Vec<QuestRewardItemDocument>,
}

#[derive(Debug)]
pub struct QuestRewardItemDocument {
    pub item: ObjectRef,
    pub count: i32,
    pub hidden: bool,
}

/// One QuestCountId and the objective it advances.
#[derive(Debug)]
pub struct QuestCounterDocument {
    pub count_id: String,
    pub objective: u32,
    pub objective_id: String,
}

#[derive(Debug)]
pub struct RouteDocument {
    pub id: String,
    pub zone: String,
}

/// Every string of one language.
#[derive(Debug)]
pub struct LocaleDocument {
    pub id: String,
    pub language: String,
    pub entries: Vec<LocaleEntryDocument>,
}

#[derive(Debug)]
pub struct LocaleEntryDocument {
    pub key: String,
    pub text: String,
}

/// The respawn window an authored placement carries, in milliseconds.
#[derive(Clone, Copy, Debug, Default)]
pub struct RespawnWindow {
    pub min: u32,
    pub max: u32,
}

#[derive(Debug)]
pub struct PlacementDocument {
    pub id: String,
    pub zone: String,
    pub placements: Vec<SourcePlacement>,
}

#[derive(Debug)]
pub struct SourcePlacement {
    pub id: String,
    pub object: ObjectRef,
    pub route: Option<String>,
}

#[derive(Debug)]
pub struct SpawnTableDocument {
    pub id: String,
    pub zone: String,
    pub entries: Vec<SourceTableEntry>,
}

#[derive(Debug)]
pub struct SourceTableEntry {
    pub object: ObjectRef,
}

/// One character-creation option's references.
#[derive(Debug)]
pub struct ChargenDocument {
    pub id: String,
    pub faction: String,
    pub loc_ref: LocRef,
    pub spawn_zone: String,
    pub starting_loadout: Vec<SourceLoadoutEntry>,
    pub starting_abilities: Vec<String>,
    pub starting_quests: Vec<String>,
    pub source: Provenance,
}

#[derive(Debug)]
pub struct SourceLoadoutEntry {
    pub item_id: String,
    pub quantity: u32,
    pub slot: String,
}

/// One overlay layer that contributed to a build.
#[derive(Clone, Debug)]
pub struct AppliedLayer {
    pub id: String,
    pub description: String,
    pub documents: usize,
}

/// One overlay document omitted because it belongs to another zone pack.
#[derive(Clone, Debug)]
pub struct SkippedOverlayDocument {
    pub document_id: String,
    pub layer: String,
    pub source: String,
    pub note: String,
}

/// The documents the reference checker walks, split by kind.
#[derive(Debug, Default)]
pub struct SourceTree {
    pub zones: Vec<ZoneDocument>,
    pub placement_documents: Vec<PlacementDocument>,
    pub tables: Vec<SpawnTableDocument>,
    pub mobs: Vec<MobDocument>,
    pub mob_kinds: Vec<MobKindDocument>,
    pub abilities: Vec<AbilityDocument>,
    pub factions: Vec<FactionDocument>,
    pub chargen_options: Vec<ChargenDocument>,
    pub items: Vec<ItemDocument>,
    pub loot_tables: Vec<LootTableDocument>,
    pub quests: Vec<QuestDocument>,
    pub routes: Vec<RouteDocument>,
    pub locales: Vec<LocaleDocument>,
    /// Ids of the level-curve documents.
    pub level_curves: Vec<String>,
    pub quest_scripts: Vec<QuestScriptDocument>,
    pub script_triggers: Vec<ScriptTriggerDocument>,
    /// Which overlay layers were applied, in manifest order.
    pub layers: Vec<AppliedLayer>,
    /// Why each curated document exists; never written into table bytes.
    pub notes: Vec<crate::overlay::CurationNote>,
    /// Overlay documents whose zone is outside this build's selection.
    pub skipped_overlay_documents: Vec<SkippedOverlayDocument>,
    /// Leaves two overlay layers both wrote.
    pub conflicts: Vec<crate::overlay::Conflict>,
    /// Ids an overlay removed outright.
    pub deleted: Vec<String>,
    /// Loot tables the source tree carries that no mob in this zone reaches.
    pub unreachable_loot_tables: usize,
    /// How many item documents were opened out of the index.
    pub items_loaded_from_index: usize,
}

fn own(s: &str) -> (out: String)
    ensures
        out@ == s@,
{
    crate::text::string_of(crate::text::chars_of(s).as_slice())
}

/// What a build reads from where.
#[derive(Debug)]
pub struct LoadOptions {
    pub root: String,
    /// Directory holding `layers.yaml` and one directory per layer.
    pub overlays_root: String,
    /// Layer ids to apply; empty means every default-on layer.
    pub selected_layers: Vec<String>,
    pub layout: Layout,
    pub ruleset: String,
    pub zone: Option<String>,
}

impl LoadOptions {
    /// Options with overlays under `<root>/overlays` and no explicit layers.
    pub fn new(root: &str, layout: Layout, ruleset: &str, zone: Option<&str>) -> (o: Self)
        ensures
            o.root@ == root@,
            o.overlays_root@ == crate::scan::join_text(root@, "overlays"@),
            o.selected_layers@.len() == 0,
            o.layout == layout,
            o.ruleset@ == ruleset@,
            match (o.zone, zone) {
                (Some(a), Some(b)) => a@ == b@,
                (None, None) => true,
                _ => false,
            },
    {
        let overlays = crate::scan::join_path(root, "overlays");
        LoadOptions {
            root: own(root),
            overlays_root: overlays,
            selected_layers: Vec::new(),
            layout,
            ruleset: own(ruleset),
            zone: match zone {
                Some(z) => Some(own(z)),
                None => None,
            },
        }
    }
}

// ----- script documents -----------------------------------------------------

/// One quest's script surface: the counter bindings and the trees quest
/// activation evaluates.
#[derive(Debug)]
pub struct QuestScriptDocument {
    pub id: String,
    pub zone: String,
    /// The quest this script surface belongs to.
    pub quest: String,
    pub counters: Vec<QuestCounterDocument>,
    pub start_impacts: Vec<ScriptNodeDocument>,
    pub trigger_agents: Vec<ScriptNodeDocument>,
    pub source: Provenance,
}

/// One trigger tree shared by reference.
#[derive(Debug)]
pub struct ScriptTriggerDocument {
    pub id: String,
    pub zone: String,
    /// Whether map machinery outside the quest-script graph attaches this
    /// trigger; it then seeds the reachability census.
    pub entrypoint: bool,
    pub root: ScriptNodeDocument,
    pub source: Provenance,
}

/// One node of a recursive script tree.
#[derive(Debug)]
pub struct ScriptNodeDocument {
    pub key: String,
    pub family: String,
    pub opcode: String,
    /// `implemented`, `inert-and-counted` or `refused`.
    pub tier: String,
    pub fields: Vec<ScriptFieldDocument>,
}

#[derive(Debug)]
pub struct ScriptFieldDocument {
    pub name: String,
    pub value: ScriptValueDocument,
}

/// One value of a script field.
#[derive(Debug, Default)]
pub struct ScriptValueDocument {
    pub integer: Option<i64>,
    pub decimal: Option<ScriptDecimalDocument>,
    pub boolean: Option<bool>,
    pub text: Option<String>,
    pub reference: Option<ScriptRefDocument>,
    pub duration_ms: Option<u64>,
    pub node: Option<Box<ScriptNodeDocument>>,
    pub list: Option<Vec<ScriptValueDocument>>,
}

/// An exact signed mantissa and base-10 scale: `mantissa * 10^-scale`.
#[derive(Clone, Copy, Debug)]
pub struct ScriptDecimalDocument {
    pub mantissa: i64,
    pub scale: i32,
}

/// A resolved content reference; `href` is provenance only.
#[derive(Clone, Debug)]
pub struct ScriptRefDocument {
    pub id: String,
    pub row_type: Option<String>,
    pub href: Option<String>,
}

pub open spec fn opt_view(o: Option<String>) -> Option<Seq<char>> {
    match o {
        Some(s) => Some(s@),
        None => None,
    }
}

pub open spec fn ref_view(r: ScriptRefDocument) -> (Seq<char>, Option<Seq<char>>, Option<Seq<char>>) {
    (r.id@, opt_view(r.row_type), opt_view(r.href))
}

pub open spec fn ref_views(v: Seq<ScriptRefDocument>) -> Seq<(Seq<char>, Option<Seq<char>>, Option<Seq<char>>)> {
    v.map_values(|r: ScriptRefDocument| ref_view(r))
}

/// Every content reference a script tree makes, in document order: each
/// value's own reference, then its node, then its list.
pub open spec fn refs_of_node(n: ScriptNodeDocument) -> Seq<(Seq<char>, Option<Seq<char>>, Option<Seq<char>>)>
    decreases n,
{
    refs_of_fields(n.fields@)
}

pub open spec fn refs_of_fields(fs: Seq<ScriptFieldDocument>) -> Seq<(Seq<char>, Option<Seq<char>>, Option<Seq<char>>)>
    decreases fs,
{
    if fs.len() == 0 {
        Seq::empty()
    } else {
        refs_of_fields(fs.drop_last()) + refs_of_value(fs.last().value)
    }
}

pub open spec fn refs_of_value(v: ScriptValueDocument) -> Seq<(Seq<char>, Option<Seq<char>>, Option<Seq<char>>)>
    decreases v,
{
    (match v.reference {
        Some(r) => seq![ref_view(r)],
        None => Seq::empty(),
    }) + (match v.node {
        Some(b) => refs_of_node(*b),
        None => Seq::empty(),
    }) + (match v.list {
        Some(l) => refs_of_values(l@),
        None => Seq::empty(),
    })
}

pub open spec fn refs_of_values(vs: Seq<ScriptValueDocument>) -> Seq<(Seq<char>, Option<Seq<char>>, Option<Seq<char>>)>
    decreases vs,
{
    if vs.len() == 0 {
        Seq::empty()
    } else {
        refs_of_values(vs.drop_last()) + refs_of_value(vs.last())
    }
}

fn copy_text(s: &String) -> (out: String)
    ensures
        out@ == s@,
{
    crate::text::string_of(crate::text::chars_of(s.as_str()).as_slice())
}

fn copy_opt(s: &Option<String>) -> (out: Option<String>)
    ensures
        opt_view(out) == opt_view(*s),
{
    match s {
        Some(t) => Some(copy_text(t)),
        None => None,
    }
}

pub fn copy_ref(r: &ScriptRefDocument) -> (out: ScriptRefDocument)
    ensures
        ref_view(out) == ref_view(*r),
{
    ScriptRefDocument { id: copy_text(&r.id), row_type: copy_opt(&r.row_type), href: copy_opt(&r.href) }
}

/// Collects every content reference a script tree makes, in document order.
/// The reference checker and the item-reachability pass both walk trees
/// this way, so they never disagree about what a tree names.
pub fn collect_script_refs(node: &ScriptNodeDocument, into: &mut Vec<ScriptRefDocument>)
    ensures
        ref_views(final(into)@) == ref_views(old(into)@) + refs_of_node(*node),
    decreases node, 2nat,
{
    collect_field_refs(&node.fields, into);
}

fn collect_field_refs(fields: &Vec<ScriptFieldDocument>, into: &mut Vec<ScriptRefDocument>)
    ensures
        ref_views(final(into)@) == ref_views(old(into)@) + refs_of_fields(fields@),
    decreases fields, 1nat,
{
    let ghost start = ref_views(into@);
    let mut i: usize = 0;
    assert(fields@.take(0) =~= Seq::<ScriptFieldDocument>::empty());
    assert(start + refs_of_fields(fields@.take(0)) =~= start);
    while i < fields.len()
        invariant
            i <= fields@.len(),
            start == ref_views(old(into)@),
            ref_views(into@) == start + refs_of_fields(fields@.take(i as int)),
        decreases fields@.len() - i,
    {
        assert(fields@.take(i + 1).drop_last() =~= fields@.take(i as int));
        assert(fields@.take(i + 1).last() == fields@[i as int]);
        proof {
            vstd::std_specs::vec::axiom_vec_index_decreases(*fields, i as int);
        }
        let ghost mid = ref_views(into@);
        collect_value_refs(&fields[i].value, into);
        assert(ref_views(into@) =~= start + refs_of_fields(fields@.take(i + 1)));
        i = i + 1;
    }
    assert(fields@.take(fields@.len() as int) =~= fields@);
}

fn collect_value_refs(value: &ScriptValueDocument, into: &mut Vec<ScriptRefDocument>)
    ensures
        ref_views(final(into)@) == ref_views(old(into)@) + refs_of_value(*value),
    decreases value, 0nat,
{
    let ghost start = ref_views(into@);
    match &value.reference {
        Some(r) => {
            let ghost before = ref_views(into@);
            let copy = copy_ref(r);
            into.push(copy);
            assert(ref_views(into@) =~= before.push(ref_view(*r)));
        },
        None => {},
    }
    let ghost a = ref_views(into@);
    match &value.node {
        Some(b) => {
            collect_script_refs(b, into);
        },
        None => {},
    }
    let ghost c = ref_views(into@);
    match &value.list {
        Some(l) => {
            let ghost lv = l@;
            let ghost s2 = ref_views(into@);
            let mut i: usize = 0;
            assert(lv.take(0) =~= Seq::<ScriptValueDocument>::empty());
            assert(s2 + refs_of_values(lv.take(0)) =~= s2);
            while i < l.len()
                invariant
                    i <= l@.len(),
                    lv == l@,
                    value.list == Some(*l),
                    ref_views(into@) == s2 + refs_of_values(lv.take(i as int)),
                decreases l@.len() - i,
            {
                assert(lv.take(i + 1).drop_last() =~= lv.take(i as int));
                assert(lv.take(i + 1).last() == l@[i as int]);
                proof {
                    assert((*value).list->Some_0 == *l);
                    assert(decreases_to!(*value => *l));
                    vstd::std_specs::vec::axiom_vec_index_decreases(*l, i as int);
                }
                collect_value_refs(&l[i], into);
                assert(ref_views(into@) =~= s2 + refs_of_values(lv.take(i + 1)));
                i = i + 1;
            }
            assert(lv.take(l@.len() as int) =~= lv);
        },
        None => {},
    }
    assert(ref_views(into@) =~= start + refs_of_value(*value));
}

} // verus!
