//! The rules a source tree must meet before it becomes a pack: exactly one
//! zone, ids unique within each table, every placement naming a mob or a
//! spawn table of the pack, every mob's faction and abilities carried by the
//! pack, every character-creation option spawning into a canonical zone, and
//! every loot tree well formed and granting only carried items. What passes
//! yields each table's row keys in id order.

use vstd::prelude::*;
use crate::reach::{ascending, id_set, insert_id, contains_id};
use crate::source::{
    SourceTree, SpawnTableDocument, SourceTableEntry, PlacementDocument, SourcePlacement, MobDocument,
    ChargenDocument, LootTableDocument, LootNodeDocument, ObjectRef, ref_target, opt_ref_target,
};
use crate::scan::text_views;
use crate::text::{chars_of, string_of, push_str, has_prefix, starts_with_str};

verus! {

/// Why a source tree cannot become a pack.
#[derive(Debug)]
pub enum BuildError {
    /// Two documents declare different zones.
    MixedZones { first: String, second: String },
    /// The documents declare one zone and the caller asked for another.
    ZoneMismatch { declared: String, requested: String },
    /// No document declares a zone and none was asked for.
    NoZone,
    /// The zone id lacks the `zone.` prefix.
    BadZoneId { zone: String },
    /// Two documents of one table share an id.
    DuplicateId { table: String, id: String },
    /// A spawn table entry or a placement names no object.
    NoObjectId { table: String, id: String },
    /// A placement names neither a mob nor a spawn table of the pack.
    UnknownObject { placement: String, object: String },
    /// The tree places nothing.
    NoPlacements,
    UnknownFaction { mob: String, faction: String },
    UnknownAbility { mob: String, ability: String },
    /// A character-creation option spawns into something other than a canonical zone id.
    BadSpawnZone { option: String, zone: String },
    /// A loot tree breaks a structural rule.
    BadLootNode { table: String, problem: String },
}

/// A refusal as plain values.
pub enum BuildFailure {
    MixedZones(Seq<char>, Seq<char>),
    ZoneMismatch(Seq<char>, Seq<char>),
    NoZone,
    BadZoneId(Seq<char>),
    DuplicateId(Seq<char>, Seq<char>),
    NoObjectId(Seq<char>, Seq<char>),
    UnknownObject(Seq<char>, Seq<char>),
    NoPlacements,
    UnknownFaction(Seq<char>, Seq<char>),
    UnknownAbility(Seq<char>, Seq<char>),
    BadSpawnZone(Seq<char>, Seq<char>),
    BadLootNode(Seq<char>, Seq<char>),
}

pub open spec fn failure_of(e: BuildError) -> BuildFailure {
    match e {
        BuildError::MixedZones { first, second } => BuildFailure::MixedZones(first@, second@),
        BuildError::ZoneMismatch { declared, requested } => BuildFailure::ZoneMismatch(declared@, requested@),
        BuildError::NoZone => BuildFailure::NoZone,
        BuildError::BadZoneId { zone } => BuildFailure::BadZoneId(zone@),
        BuildError::DuplicateId { table, id } => BuildFailure::DuplicateId(table@, id@),
        BuildError::NoObjectId { table, id } => BuildFailure::NoObjectId(table@, id@),
        BuildError::UnknownObject { placement, object } => BuildFailure::UnknownObject(placement@, object@),
        BuildError::NoPlacements => BuildFailure::NoPlacements,
        BuildError::UnknownFaction { mob, faction } => BuildFailure::UnknownFaction(mob@, faction@),
        BuildError::UnknownAbility { mob, ability } => BuildFailure::UnknownAbility(mob@, ability@),
        BuildError::BadSpawnZone { option, zone } => BuildFailure::BadSpawnZone(option@, zone@),
        BuildError::BadLootNode { table, problem } => BuildFailure::BadLootNode(table@, problem@),
    }
}

fn own(s: &str) -> (out: String)
    ensures
        out@ == s@,
{
    string_of(chars_of(s).as_slice())
}

// ----- unique ids ---------------------------------------------------------------------

/// The first of the first `n` ids that repeats an earlier one.
pub open spec fn first_dup(ids: Seq<Seq<char>>, n: int) -> Option<int>
    decreases n,
{
    if n <= 0 {
        None
    } else {
        match first_dup(ids, n - 1) {
            Some(i) => Some(i),
            None => if ids.take(n - 1).contains(ids[n - 1]) { Some(n - 1) } else { None },
        }
    }
}

proof fn lemma_dup_stays(ids: Seq<Seq<char>>, m: int, n: int)
    requires
        m <= n,
        first_dup(ids, m) is Some,
    ensures
        first_dup(ids, n) == first_dup(ids, m),
    decreases n - m,
{
    if m < n {
        lemma_dup_stays(ids, m, n - 1);
    }
}

/// The ids of a table as its ascending row keys; the first repeated id is
/// refused under the table's name.
fn unique_keys(table: &str, ids: &Vec<String>) -> (r: Result<Vec<String>, BuildError>)
    ensures
        match first_dup(text_views(ids@), ids@.len() as int) {
            Some(i) => r matches Err(e) && failure_of(e) == BuildFailure::DuplicateId(table@, ids@[i]@),
            None => r matches Ok(keys) && ascending(keys@) && id_set(keys@) == text_views(ids@).to_set(),
        },
{
    let ghost v = text_views(ids@);
    let mut keys: Vec<String> = Vec::new();
    let mut i: usize = 0;
    proof {
        assert(id_set(keys@) =~= v.take(0).to_set());
    }
    while i < ids.len()
        invariant
            v == text_views(ids@),
            i <= v.len(),
            first_dup(v, i as int) is None,
            ascending(keys@),
            id_set(keys@) == v.take(i as int).to_set(),
        decreases v.len() - i,
    {
        if contains_id(&keys, ids[i].as_str()) {
            proof {
                assert(v.take(i as int).to_set().contains(v[i as int]));
                assert(v.take(i as int).contains(v[i as int]));
                assert(first_dup(v, i + 1) == Some(i as int));
                lemma_dup_stays(v, i + 1, v.len() as int);
            }
            return Err(BuildError::DuplicateId { table: own(table), id: own(ids[i].as_str()) });
        }
        proof {
            assert(!v.take(i as int).contains(v[i as int])) by {
                if v.take(i as int).contains(v[i as int]) {
                    assert(v.take(i as int).to_set().contains(v[i as int]));
                }
            }
        }
        insert_id(&mut keys, ids[i].as_str());
        proof {
            assert(v.take(i + 1) =~= v.take(i as int).push(v[i as int]));
            v.take(i as int).lemma_push_to_set_commute(v[i as int]);
        }
        i = i + 1;
    }
    assert(v.take(i as int) =~= v);
    Ok(keys)
}


// ----- a table's documents, each checked, then unique ----------------------------------

pub open spec fn opt_failure(o: Option<BuildError>) -> Option<BuildFailure> {
    match o {
        Some(e) => Some(failure_of(e)),
        None => None,
    }
}

pub open spec fn failure_views(v: Seq<Option<BuildError>>) -> Seq<Option<BuildFailure>> {
    v.map_values(|o: Option<BuildError>| opt_failure(o))
}

/// The first failure among the first `n` documents of a table: a document's
/// own failure first, then a repeat of an earlier id.
pub open spec fn stage_failure(ids: Seq<Seq<char>>, own: Seq<Option<BuildFailure>>, table: Seq<char>, n: int)
    -> Option<BuildFailure>
    decreases n,
{
    if n <= 0 {
        None
    } else {
        match stage_failure(ids, own, table, n - 1) {
            Some(f) => Some(f),
            None => match own[n - 1] {
                Some(f) => Some(f),
                None => if ids.take(n - 1).contains(ids[n - 1]) {
                    Some(BuildFailure::DuplicateId(table, ids[n - 1]))
                } else {
                    None
                },
            },
        }
    }
}

proof fn lemma_stage_stays(ids: Seq<Seq<char>>, own: Seq<Option<BuildFailure>>, table: Seq<char>, m: int, n: int)
    requires
        m <= n,
        stage_failure(ids, own, table, m) is Some,
    ensures
        stage_failure(ids, own, table, n) == stage_failure(ids, own, table, m),
    decreases n - m,
{
    if m < n {
        lemma_stage_stays(ids, own, table, m, n - 1);
    }
}

/// What a table's stage gives: the first failure, or its row keys.
pub open spec fn stage_result(ids: Seq<Seq<char>>, own: Seq<Option<BuildFailure>>, table: Seq<char>,
    r: Result<Vec<String>, BuildError>) -> bool
{
    match stage_failure(ids, own, table, ids.len() as int) {
        Some(f) => r matches Err(e) && failure_of(e) == f,
        None => r matches Ok(keys) && ascending(keys@) && id_set(keys@) == ids.to_set(),
    }
}

/// Takes a table's documents in order, each refused by its own failure or by
/// repeating an earlier id, and gives the row keys of a table that passes.
fn keyed_stage(table: &str, ids: &Vec<String>, checks: Vec<Option<BuildError>>) -> (r: Result<Vec<String>, BuildError>)
    requires
        checks@.len() == ids@.len(),
    ensures
        stage_result(text_views(ids@), failure_views(checks@), table@, r),
{
    let ghost v = text_views(ids@);
    let ghost ov = failure_views(checks@);
    let mut rest = checks;
    let mut keys: Vec<String> = Vec::new();
    let mut i: usize = 0;
    proof {
        assert(id_set(keys@) =~= v.take(0).to_set());
    }
    while i < ids.len()
        invariant
            v == text_views(ids@),
            ov == failure_views(checks@),
            ov.len() == v.len(),
            i <= v.len(),
            failure_views(rest@) == ov.skip(i as int),
            stage_failure(v, ov, table@, i as int) is None,
            ascending(keys@),
            id_set(keys@) == v.take(i as int).to_set(),
        decreases v.len() - i,
    {
        let ghost r0 = rest@;
        assert(failure_views(r0).len() == r0.len());
        assert(failure_views(r0)[0] == ov[i as int]);
        let mine = rest.remove(0);
        assert(rest@ =~= r0.drop_first());
        assert(failure_views(rest@) =~= failure_views(r0).drop_first());
        assert(failure_views(rest@) =~= ov.skip(i + 1));
        match mine {
            Some(e) => {
                proof {
                    assert(stage_failure(v, ov, table@, i + 1) == Some(failure_of(e)));
                    lemma_stage_stays(v, ov, table@, i + 1, v.len() as int);
                }
                return Err(e);
            },
            None => {},
        }
        if contains_id(&keys, ids[i].as_str()) {
            proof {
                assert(v.take(i as int).to_set().contains(v[i as int]));
                assert(v.take(i as int).contains(v[i as int]));
                assert(stage_failure(v, ov, table@, i + 1) == Some(BuildFailure::DuplicateId(table@, v[i as int])));
                lemma_stage_stays(v, ov, table@, i + 1, v.len() as int);
            }
            return Err(BuildError::DuplicateId { table: own(table), id: own(ids[i].as_str()) });
        }
        proof {
            assert(!v.take(i as int).contains(v[i as int])) by {
                if v.take(i as int).contains(v[i as int]) {
                    assert(v.take(i as int).to_set().contains(v[i as int]));
                }
            }
        }
        insert_id(&mut keys, ids[i].as_str());
        proof {
            assert(v.take(i + 1) =~= v.take(i as int).push(v[i as int]));
            v.take(i as int).lemma_push_to_set_commute(v[i as int]);
        }
        i = i + 1;
    }
    assert(v.take(i as int) =~= v);
    Ok(keys)
}

fn no_failures(n: usize) -> (out: Vec<Option<BuildError>>)
    ensures
        out@.len() == n,
        failure_views(out@) == nones(n as nat),
{
    let mut out: Vec<Option<BuildError>> = Vec::new();
    let mut i: usize = 0;
    while i < n
        invariant
            i <= n,
            out@.len() == i,
            forall|k: int| 0 <= k < i ==> (#[trigger] out@[k]) is None,
        decreases n - i,
    {
        out.push(None);
        i = i + 1;
    }
    assert(failure_views(out@) =~= nones(n as nat));
    out
}


// ----- each document's own rule -----------------------------------------------------------

/// A spawn table names an object in every entry.
pub open spec fn spawn_check(d: SpawnTableDocument) -> Option<BuildFailure> {
    if exists|k: int| 0 <= k < d.entries@.len() && ref_target(#[trigger] d.entries@[k].object) is None {
        Some(BuildFailure::NoObjectId("spawn table"@, d.id@))
    } else {
        None
    }
}

/// A placement names a mob, or a spawn table of the pack.
pub open spec fn placement_check(p: SourcePlacement, spawn: Set<Seq<char>>) -> Option<BuildFailure> {
    match ref_target(p.object) {
        None => Some(BuildFailure::NoObjectId("placement"@, p.id@)),
        Some(o) => if !has_prefix(o, "mob."@) && !spawn.contains(o) {
            Some(BuildFailure::UnknownObject(p.id@, o))
        } else {
            None
        },
    }
}

/// The first of the first `n` references whose id the pack does not carry.
pub open spec fn first_unknown(refs: Seq<ObjectRef>, known: Set<Seq<char>>, n: int) -> Option<Seq<char>>
    decreases n,
{
    if n <= 0 {
        None
    } else {
        match first_unknown(refs, known, n - 1) {
            Some(a) => Some(a),
            None => match ref_target(refs[n - 1]) {
                Some(a) => if known.contains(a) { None } else { Some(a) },
                None => None,
            },
        }
    }
}

/// A mob's faction, when it names one, and each ability it names are carried.
pub open spec fn mob_check(m: MobDocument, factions: Set<Seq<char>>, abilities: Set<Seq<char>>) -> Option<BuildFailure> {
    let f = match opt_ref_target(m.faction) { Some(f) => f, None => Seq::empty() };
    if f.len() > 0 && !factions.contains(f) {
        Some(BuildFailure::UnknownFaction(m.id@, f))
    } else {
        match first_unknown(m.abilities@, abilities, m.abilities@.len() as int) {
            Some(a) => Some(BuildFailure::UnknownAbility(m.id@, a)),
            None => None,
        }
    }
}

/// A character-creation option spawns into a canonical zone id.
pub open spec fn chargen_check(c: ChargenDocument) -> Option<BuildFailure> {
    if has_prefix(c.spawn_zone@, "zone."@) { None } else { Some(BuildFailure::BadSpawnZone(c.id@, c.spawn_zone@)) }
}

/// The deepest container level a loot tree may reach.
pub open spec fn max_loot_depth() -> int {
    8
}

/// A leaf's count range is reversed.
pub open spec fn counts_reversed(n: LootNodeDocument) -> bool {
    let low: i32 = match n.min_number { Some(x) => x, None => 0 };
    let high: i32 = match n.max_number { Some(x) => x, None => 0 };
    high < low
}

/// The first structural rule a loot node at container level `depth`
/// breaks, its children taken in order.
pub open spec fn loot_problem(n: LootNodeDocument, items: Set<Seq<char>>, depth: int) -> Option<Seq<char>>
    decreases n,
{
    let kind = n.node@;
    if kind == "and"@ || kind == "or"@ {
        if depth > max_loot_depth() {
            Some("a container nests deeper than 8 levels"@)
        } else if n.entries@.len() == 0 {
            Some("a container has no entries"@)
        } else {
            children_problem(n.entries@, items, depth + 1)
        }
    } else if kind == "single-item"@ {
        if counts_reversed(n) {
            Some("a leaf declares max_number below min_number"@)
        } else {
            match opt_ref_target(n.item) {
                None => Some("a single-item leaf names no item id"@),
                Some(i) => if items.contains(i) { None } else { Some("grants "@ + i + ", which this pack does not carry as an item"@) },
            }
        }
    } else if kind == "money"@ {
        if counts_reversed(n) {
            Some("a leaf declares max_number below min_number"@)
        } else if n.item is Some {
            Some("a money leaf carries an item reference"@)
        } else {
            None
        }
    } else {
        Some("unknown node type "@ + kind)
    }
}

pub open spec fn children_problem(cs: Seq<LootNodeDocument>, items: Set<Seq<char>>, depth: int) -> Option<Seq<char>>
    decreases cs,
{
    if cs.len() == 0 {
        None
    } else {
        match children_problem(cs.drop_last(), items, depth) {
            Some(p) => Some(p),
            None => loot_problem(cs.last(), items, depth),
        }
    }
}

/// A loot table's tree is well formed and grants only carried items.
pub open spec fn loot_check(l: LootTableDocument, items: Set<Seq<char>>) -> Option<BuildFailure> {
    match loot_problem(l.root, items, 1) {
        Some(p) => Some(BuildFailure::BadLootNode(l.id@, p)),
        None => None,
    }
}

fn opt_text_eq(o: &Option<String>) -> (r: Option<Vec<char>>)
    ensures
        match (r, *o) {
            (Some(a), Some(b)) => a@ == b@,
            (None, None) => true,
            _ => false,
        },
{
    match o {
        Some(s) => Some(chars_of(s.as_str())),
        None => None,
    }
}

fn check_loot_node(node: &LootNodeDocument, items: &Vec<String>, depth: u32) -> (r: Option<String>)
    requires
        1 <= depth <= 9,
    ensures
        match (r, loot_problem(*node, id_set(items@), depth as int)) {
            (Some(a), Some(b)) => a@ == b,
            (None, None) => true,
            _ => false,
        },
    decreases node,
{
    let kind = chars_of(node.node.as_str());
    proof { reveal_strlit("and"); reveal_strlit("or"); reveal_strlit("single-item"); reveal_strlit("money"); }
    if crate::text::eq_str(kind.as_slice(), "and") || crate::text::eq_str(kind.as_slice(), "or") {
        if depth > 8 {
            return Some(own("a container nests deeper than 8 levels"));
        }
        if node.entries.len() == 0 {
            return Some(own("a container has no entries"));
        }
        let ghost cs = node.entries@;
        let mut i: usize = 0;
        while i < node.entries.len()
            invariant
                i <= cs.len(),
                cs == node.entries@,
                cs.len() > 0,
                node.node@ == "and"@ || node.node@ == "or"@,
                1 <= depth <= 8,
                children_problem(cs.take(i as int), id_set(items@), depth + 1) is None,
            decreases cs.len() - i,
        {
            assert(cs.take(i + 1).drop_last() =~= cs.take(i as int));
            assert(cs.take(i + 1).last() == cs[i as int]);
            proof {
                assert(decreases_to!(node => node.entries));
                vstd::std_specs::vec::axiom_vec_index_decreases(node.entries, i as int);
            }
            let p = check_loot_node(&node.entries[i], items, depth + 1);
            if p.is_some() {
                proof {
                    assert(children_problem(cs.take(i + 1), id_set(items@), depth + 1)
                        == loot_problem(cs[i as int], id_set(items@), depth + 1));
                    lemma_children_stays(cs, id_set(items@), depth + 1, i + 1, cs.len() as int);
                    assert(cs.take(cs.len() as int) =~= cs);
                    assert(children_problem(cs, id_set(items@), depth + 1)
                        == loot_problem(cs[i as int], id_set(items@), depth + 1));
                    assert(loot_problem(*node, id_set(items@), depth as int) == children_problem(cs, id_set(items@), depth + 1));
                }
                return p;
            }
            i = i + 1;
        }
        assert(cs.take(cs.len() as int) =~= cs);
        return None;
    }
    let low: i32 = match node.min_number { Some(x) => x, None => 0 };
    let high: i32 = match node.max_number { Some(x) => x, None => 0 };
    if crate::text::eq_str(kind.as_slice(), "single-item") {
        if high < low {
            return Some(own("a leaf declares max_number below min_number"));
        }
        let item = match &node.item {
            Some(r) => opt_text_eq(&r.id),
            None => None,
        };
        match item {
            None => {
                return Some(own("a single-item leaf names no item id"));
            },
            Some(i) => {
                let text = string_of(i.as_slice());
                if contains_id(items, text.as_str()) {
                    return None;
                }
                let mut out = chars_of("grants ");
                push_str(&mut out, text.as_str());
                push_str(&mut out, ", which this pack does not carry as an item");
                return Some(string_of(out.as_slice()));
            },
        }
    }
    if crate::text::eq_str(kind.as_slice(), "money") {
        if high < low {
            return Some(own("a leaf declares max_number below min_number"));
        }
        if node.item.is_some() {
            return Some(own("a money leaf carries an item reference"));
        }
        return None;
    }
    let mut out = chars_of("unknown node type ");
    push_str(&mut out, node.node.as_str());
    Some(string_of(out.as_slice()))
}

proof fn lemma_children_stays(cs: Seq<LootNodeDocument>, items: Set<Seq<char>>, depth: int, m: int, n: int)
    requires
        0 <= m <= n <= cs.len(),
        children_problem(cs.take(m), items, depth) is Some,
    ensures
        children_problem(cs.take(n), items, depth) == children_problem(cs.take(m), items, depth),
    decreases n - m,
{
    if m < n {
        lemma_children_stays(cs, items, depth, m, n - 1);
        assert(cs.take(n).drop_last() =~= cs.take(n - 1));
    }
}


// ----- each table's ids and its documents' own failures ----------------------------------

pub open spec fn spawn_ids(t: SourceTree) -> Seq<Seq<char>> {
    t.tables@.map_values(|d: SpawnTableDocument| d.id@)
}

pub open spec fn spawn_fails(t: SourceTree) -> Seq<Option<BuildFailure>> {
    t.tables@.map_values(|d: SpawnTableDocument| spawn_check(d))
}

/// Every placement, document by document.
pub open spec fn flat_placements(ds: Seq<PlacementDocument>) -> Seq<SourcePlacement>
    decreases ds.len(),
{
    if ds.len() == 0 { Seq::empty() } else { flat_placements(ds.drop_last()) + ds.last().placements@ }
}

pub open spec fn placement_ids(t: SourceTree) -> Seq<Seq<char>> {
    flat_placements(t.placement_documents@).map_values(|p: SourcePlacement| p.id@)
}

pub open spec fn placement_fails(t: SourceTree, spawn: Set<Seq<char>>) -> Seq<Option<BuildFailure>> {
    flat_placements(t.placement_documents@).map_values(|p: SourcePlacement| placement_check(p, spawn))
}

pub open spec fn ability_ids(t: SourceTree) -> Seq<Seq<char>> {
    t.abilities@.map_values(|d: crate::source::AbilityDocument| d.id@)
}

pub open spec fn faction_ids(t: SourceTree) -> Seq<Seq<char>> {
    t.factions@.map_values(|d: crate::source::FactionDocument| d.id@)
}

pub open spec fn item_ids(t: SourceTree) -> Seq<Seq<char>> {
    t.items@.map_values(|d: crate::source::ItemDocument| d.id@)
}

pub open spec fn mob_ids(t: SourceTree) -> Seq<Seq<char>> {
    t.mobs@.map_values(|d: MobDocument| d.id@)
}

pub open spec fn mob_fails(t: SourceTree, factions: Set<Seq<char>>, abilities: Set<Seq<char>>) -> Seq<Option<BuildFailure>> {
    t.mobs@.map_values(|d: MobDocument| mob_check(d, factions, abilities))
}

pub open spec fn chargen_ids(t: SourceTree) -> Seq<Seq<char>> {
    t.chargen_options@.map_values(|d: ChargenDocument| d.id@)
}

pub open spec fn chargen_fails(t: SourceTree) -> Seq<Option<BuildFailure>> {
    t.chargen_options@.map_values(|d: ChargenDocument| chargen_check(d))
}

pub open spec fn loot_ids(t: SourceTree) -> Seq<Seq<char>> {
    t.loot_tables@.map_values(|d: LootTableDocument| d.id@)
}

pub open spec fn loot_fails(t: SourceTree, items: Set<Seq<char>>) -> Seq<Option<BuildFailure>> {
    t.loot_tables@.map_values(|d: LootTableDocument| loot_check(d, items))
}

pub open spec fn nones(n: nat) -> Seq<Option<BuildFailure>> {
    Seq::new(n, |k: int| None::<BuildFailure>)
}

fn spawn_input(ds: &Vec<SpawnTableDocument>) -> (r: (Vec<String>, Vec<Option<BuildError>>))
    ensures
        text_views(r.0@) == ds@.map_values(|d: SpawnTableDocument| d.id@),
        failure_views(r.1@) == ds@.map_values(|d: SpawnTableDocument| spawn_check(d)),
        r.1@.len() == r.0@.len(),
{
    let mut ids: Vec<String> = Vec::new();
    let mut checks: Vec<Option<BuildError>> = Vec::new();
    let mut i: usize = 0;
    while i < ds.len()
        invariant
            i <= ds@.len(),
            ids@.len() == i,
            checks@.len() == i,
            text_views(ids@) == ds@.take(i as int).map_values(|d: SpawnTableDocument| d.id@),
            failure_views(checks@) == ds@.take(i as int).map_values(|d: SpawnTableDocument| spawn_check(d)),
        decreases ds@.len() - i,
    {
        let d = &ds[i];
        let mut missing = false;
        let mut k: usize = 0;
        while k < d.entries.len()
            invariant
                k <= d.entries@.len(),
                missing == exists|j: int| 0 <= j < k && ref_target(#[trigger] d.entries@[j].object) is None,
            decreases d.entries@.len() - k,
        {
            if d.entries[k].object.id().is_none() {
                missing = true;
            }
            k = k + 1;
        }
        let check = if missing {
            Some(BuildError::NoObjectId { table: own("spawn table"), id: own(d.id.as_str()) })
        } else {
            None
        };
        let ghost ib = text_views(ids@);
        let ghost cb = failure_views(checks@);
        let ghost cv = opt_failure(check);
        assert(cv == spawn_check(ds@[i as int]));
        ids.push(own(d.id.as_str()));
        checks.push(check);
        proof {
            assert(text_views(ids@) =~= ib.push(ds@[i as int].id@));
            assert(failure_views(checks@) =~= cb.push(cv));
            assert(ds@.take(i + 1) =~= ds@.take(i as int).push(ds@[i as int]));
            assert(ds@.take(i + 1).map_values(|d: SpawnTableDocument| d.id@)
                =~= ds@.take(i as int).map_values(|d: SpawnTableDocument| d.id@).push(ds@[i as int].id@));
            assert(ds@.take(i + 1).map_values(|d: SpawnTableDocument| spawn_check(d))
                =~= ds@.take(i as int).map_values(|d: SpawnTableDocument| spawn_check(d)).push(spawn_check(ds@[i as int])));
            assert(text_views(ids@) =~= ds@.take(i + 1).map_values(|d: SpawnTableDocument| d.id@));
            assert(failure_views(checks@) =~= ds@.take(i + 1).map_values(|d: SpawnTableDocument| spawn_check(d)));
        }
        i = i + 1;
    }
    assert(ds@.take(i as int) =~= ds@);
    (ids, checks)
}

fn placement_input(ds: &Vec<PlacementDocument>, spawn: &Vec<String>) -> (r: (Vec<String>, Vec<Option<BuildError>>))
    ensures
        text_views(r.0@) == flat_placements(ds@).map_values(|p: SourcePlacement| p.id@),
        failure_views(r.1@) == flat_placements(ds@).map_values(|p: SourcePlacement| placement_check(p, id_set(spawn@))),
        r.1@.len() == r.0@.len(),
{
    let ghost sp = id_set(spawn@);
    let mut ids: Vec<String> = Vec::new();
    let mut checks: Vec<Option<BuildError>> = Vec::new();
    let mut i: usize = 0;
    assert(flat_placements(ds@.take(0)) =~= Seq::<SourcePlacement>::empty());
    while i < ds.len()
        invariant
            i <= ds@.len(),
            sp == id_set(spawn@),
            ids@.len() == checks@.len(),
            text_views(ids@) == flat_placements(ds@.take(i as int)).map_values(|p: SourcePlacement| p.id@),
            failure_views(checks@) == flat_placements(ds@.take(i as int)).map_values(|p: SourcePlacement| placement_check(p, sp)),
        decreases ds@.len() - i,
    {
        let ps = &ds[i].placements;
        let ghost f0 = flat_placements(ds@.take(i as int));
        let mut k: usize = 0;
        while k < ps.len()
            invariant
                k <= ps@.len(),
                sp == id_set(spawn@),
                ids@.len() == checks@.len(),
                text_views(ids@) == (f0 + ps@.take(k as int)).map_values(|p: SourcePlacement| p.id@),
                failure_views(checks@) == (f0 + ps@.take(k as int)).map_values(|p: SourcePlacement| placement_check(p, sp)),
            decreases ps@.len() - k,
        {
            let p = &ps[k];
            let check = match p.object.id() {
                None => Some(BuildError::NoObjectId { table: own("placement"), id: own(p.id.as_str()) }),
                Some(o) => {
                    let oc = chars_of(o);
                    if !starts_with_str(oc.as_slice(), "mob.") && !contains_id(spawn, o) {
                        Some(BuildError::UnknownObject { placement: own(p.id.as_str()), object: own(o) })
                    } else {
                        None
                    }
                },
            };
            let ghost ib = text_views(ids@);
            let ghost cb = failure_views(checks@);
            let ghost cv = opt_failure(check);
            assert(cv == placement_check(ps@[k as int], sp));
            ids.push(own(p.id.as_str()));
            checks.push(check);
            proof {
                assert(text_views(ids@) =~= ib.push(ps@[k as int].id@));
                assert(failure_views(checks@) =~= cb.push(cv));
                assert(f0 + ps@.take(k + 1) =~= (f0 + ps@.take(k as int)).push(ps@[k as int]));
                assert((f0 + ps@.take(k + 1)).map_values(|p: SourcePlacement| p.id@)
                    =~= (f0 + ps@.take(k as int)).map_values(|p: SourcePlacement| p.id@).push(ps@[k as int].id@));
                assert((f0 + ps@.take(k + 1)).map_values(|p: SourcePlacement| placement_check(p, sp))
                    =~= (f0 + ps@.take(k as int)).map_values(|p: SourcePlacement| placement_check(p, sp)).push(placement_check(ps@[k as int], sp)));
                assert(text_views(ids@) =~= (f0 + ps@.take(k + 1)).map_values(|p: SourcePlacement| p.id@));
                assert(failure_views(checks@) =~= (f0 + ps@.take(k + 1)).map_values(|p: SourcePlacement| placement_check(p, sp)));
            }
            k = k + 1;
        }
        proof {
            assert(ds@.take(i + 1).drop_last() =~= ds@.take(i as int));
            assert(ps@.take(k as int) =~= ps@);
            assert(flat_placements(ds@.take(i + 1)) == f0 + ps@);
        }
        i = i + 1;
    }
    assert(ds@.take(i as int) =~= ds@);
    (ids, checks)
}


fn ability_input(ds: &Vec<crate::source::AbilityDocument>) -> (ids: Vec<String>)
    ensures
        text_views(ids@) == ds@.map_values(|d: crate::source::AbilityDocument| d.id@),
{
    let mut ids: Vec<String> = Vec::new();
    let mut i: usize = 0;
    while i < ds.len()
        invariant
            i <= ds@.len(),
            text_views(ids@) == ds@.take(i as int).map_values(|d: crate::source::AbilityDocument| d.id@),
        decreases ds@.len() - i,
    {
        let ghost ib = text_views(ids@);
        ids.push(own(ds[i].id.as_str()));
        proof {
            assert(text_views(ids@) =~= ib.push(ds@[i as int].id@));
            assert(ds@.take(i + 1).map_values(|d: crate::source::AbilityDocument| d.id@)
                =~= ds@.take(i as int).map_values(|d: crate::source::AbilityDocument| d.id@).push(ds@[i as int].id@));
        }
        i = i + 1;
    }
    assert(ds@.take(i as int) =~= ds@);
    ids
}

fn faction_input(ds: &Vec<crate::source::FactionDocument>) -> (ids: Vec<String>)
    ensures
        text_views(ids@) == ds@.map_values(|d: crate::source::FactionDocument| d.id@),
{
    let mut ids: Vec<String> = Vec::new();
    let mut i: usize = 0;
    while i < ds.len()
        invariant
            i <= ds@.len(),
            text_views(ids@) == ds@.take(i as int).map_values(|d: crate::source::FactionDocument| d.id@),
        decreases ds@.len() - i,
    {
        let ghost ib = text_views(ids@);
        ids.push(own(ds[i].id.as_str()));
        proof {
            assert(text_views(ids@) =~= ib.push(ds@[i as int].id@));
            assert(ds@.take(i + 1).map_values(|d: crate::source::FactionDocument| d.id@)
                =~= ds@.take(i as int).map_values(|d: crate::source::FactionDocument| d.id@).push(ds@[i as int].id@));
        }
        i = i + 1;
    }
    assert(ds@.take(i as int) =~= ds@);
    ids
}

fn item_input(ds: &Vec<crate::source::ItemDocument>) -> (ids: Vec<String>)
    ensures
        text_views(ids@) == ds@.map_values(|d: crate::source::ItemDocument| d.id@),
{
    let mut ids: Vec<String> = Vec::new();
    let mut i: usize = 0;
    while i < ds.len()
        invariant
            i <= ds@.len(),
            text_views(ids@) == ds@.take(i as int).map_values(|d: crate::source::ItemDocument| d.id@),
        decreases ds@.len() - i,
    {
        let ghost ib = text_views(ids@);
        ids.push(own(ds[i].id.as_str()));
        proof {
            assert(text_views(ids@) =~= ib.push(ds@[i as int].id@));
            assert(ds@.take(i + 1).map_values(|d: crate::source::ItemDocument| d.id@)
                =~= ds@.take(i as int).map_values(|d: crate::source::ItemDocument| d.id@).push(ds@[i as int].id@));
        }
        i = i + 1;
    }
    assert(ds@.take(i as int) =~= ds@);
    ids
}

fn chargen_input(ds: &Vec<ChargenDocument>) -> (r: (Vec<String>, Vec<Option<BuildError>>))
    ensures
        text_views(r.0@) == ds@.map_values(|d: ChargenDocument| d.id@),
        failure_views(r.1@) == ds@.map_values(|d: ChargenDocument| chargen_check(d)),
        r.1@.len() == r.0@.len(),
{
    
    let mut ids: Vec<String> = Vec::new();
    let mut checks: Vec<Option<BuildError>> = Vec::new();
    let mut i: usize = 0;
    while i < ds.len()
        invariant
            i <= ds@.len(),
            ids@.len() == i,
            checks@.len() == i,
            
            text_views(ids@) == ds@.take(i as int).map_values(|d: ChargenDocument| d.id@),
            failure_views(checks@) == ds@.take(i as int).map_values(|d: ChargenDocument| chargen_check(d)),
        decreases ds@.len() - i,
    {
        let d = &ds[i];
        let zone = chars_of(d.spawn_zone.as_str());
        let check = if starts_with_str(zone.as_slice(), "zone.") {
            None
        } else {
            Some(BuildError::BadSpawnZone { option: own(d.id.as_str()), zone: own(d.spawn_zone.as_str()) })
        };
        assert(opt_failure(check) == chargen_check(*d));
        let ghost ib = text_views(ids@);
        let ghost cb = failure_views(checks@);
        let ghost cv = opt_failure(check);
        ids.push(own(d.id.as_str()));
        checks.push(check);
        proof {
            assert(text_views(ids@) =~= ib.push(ds@[i as int].id@));
            assert(failure_views(checks@) =~= cb.push(cv));
            assert(ds@.take(i + 1).map_values(|d: ChargenDocument| d.id@)
                =~= ds@.take(i as int).map_values(|d: ChargenDocument| d.id@).push(ds@[i as int].id@));
            assert(ds@.take(i + 1).map_values(|d: ChargenDocument| chargen_check(d))
                =~= ds@.take(i as int).map_values(|d: ChargenDocument| chargen_check(d)).push(chargen_check(ds@[i as int])));
        }
        i = i + 1;
    }
    assert(ds@.take(i as int) =~= ds@);
    (ids, checks)
}

fn loot_input(ds: &Vec<LootTableDocument>, items: &Vec<String>) -> (r: (Vec<String>, Vec<Option<BuildError>>))
    ensures
        text_views(r.0@) == ds@.map_values(|d: LootTableDocument| d.id@),
        failure_views(r.1@) == ds@.map_values(|d: LootTableDocument| loot_check(d, id_set(items@))),
        r.1@.len() == r.0@.len(),
{
    let ghost it = id_set(items@);
    let mut ids: Vec<String> = Vec::new();
    let mut checks: Vec<Option<BuildError>> = Vec::new();
    let mut i: usize = 0;
    while i < ds.len()
        invariant
            i <= ds@.len(),
            ids@.len() == i,
            checks@.len() == i,
            it == id_set(items@),
            text_views(ids@) == ds@.take(i as int).map_values(|d: LootTableDocument| d.id@),
            failure_views(checks@) == ds@.take(i as int).map_values(|d: LootTableDocument| loot_check(d, it)),
        decreases ds@.len() - i,
    {
        let d = &ds[i];
        let problem = check_loot_node(&d.root, items, 1);
        let check = match problem {
            Some(text) => Some(BuildError::BadLootNode { table: own(d.id.as_str()), problem: text }),
            None => None,
        };
        assert(opt_failure(check) == loot_check(*d, it));
        let ghost ib = text_views(ids@);
        let ghost cb = failure_views(checks@);
        let ghost cv = opt_failure(check);
        ids.push(own(d.id.as_str()));
        checks.push(check);
        proof {
            assert(text_views(ids@) =~= ib.push(ds@[i as int].id@));
            assert(failure_views(checks@) =~= cb.push(cv));
            assert(ds@.take(i + 1).map_values(|d: LootTableDocument| d.id@)
                =~= ds@.take(i as int).map_values(|d: LootTableDocument| d.id@).push(ds@[i as int].id@));
            assert(ds@.take(i + 1).map_values(|d: LootTableDocument| loot_check(d, it))
                =~= ds@.take(i as int).map_values(|d: LootTableDocument| loot_check(d, it)).push(loot_check(ds@[i as int], it)));
        }
        i = i + 1;
    }
    assert(ds@.take(i as int) =~= ds@);
    (ids, checks)
}

fn first_unknown_exec(refs: &Vec<ObjectRef>, known: &Vec<String>) -> (r: Option<String>)
    ensures
        match (r, first_unknown(refs@, id_set(known@), refs@.len() as int)) {
            (Some(a), Some(b)) => a@ == b,
            (None, None) => true,
            _ => false,
        },
{
    let mut i: usize = 0;
    while i < refs.len()
        invariant
            i <= refs@.len(),
            first_unknown(refs@, id_set(known@), i as int) is None,
        decreases refs@.len() - i,
    {
        match refs[i].id() {
            Some(a) => {
                if !contains_id(known, a) {
                    proof { lemma_unknown_stays(refs@, id_set(known@), i + 1, refs@.len() as int); }
                    return Some(own(a));
                }
            },
            None => {},
        }
        i = i + 1;
    }
    None
}

proof fn lemma_unknown_stays(refs: Seq<ObjectRef>, known: Set<Seq<char>>, m: int, n: int)
    requires
        m <= n,
        first_unknown(refs, known, m) is Some,
    ensures
        first_unknown(refs, known, n) == first_unknown(refs, known, m),
    decreases n - m,
{
    if m < n {
        lemma_unknown_stays(refs, known, m, n - 1);
    }
}

fn mob_input(ds: &Vec<MobDocument>, factions: &Vec<String>, abilities: &Vec<String>) -> (r: (Vec<String>, Vec<Option<BuildError>>))
    ensures
        text_views(r.0@) == ds@.map_values(|d: MobDocument| d.id@),
        failure_views(r.1@) == ds@.map_values(|d: MobDocument| mob_check(d, id_set(factions@), id_set(abilities@))),
        r.1@.len() == r.0@.len(),
{
    let ghost fs = id_set(factions@);
    let ghost abs = id_set(abilities@);
    let mut ids: Vec<String> = Vec::new();
    let mut checks: Vec<Option<BuildError>> = Vec::new();
    let mut i: usize = 0;
    while i < ds.len()
        invariant
            i <= ds@.len(),
            ids@.len() == i,
            checks@.len() == i,
            fs == id_set(factions@),
            abs == id_set(abilities@),
            text_views(ids@) == ds@.take(i as int).map_values(|d: MobDocument| d.id@),
            failure_views(checks@) == ds@.take(i as int).map_values(|d: MobDocument| mob_check(d, fs, abs)),
        decreases ds@.len() - i,
    {
        let d = &ds[i];
        let faction: Vec<char> = match &d.faction {
            Some(r) => match r.id() {
                Some(f) => chars_of(f),
                None => Vec::new(),
            },
            None => Vec::new(),
        };
        let check = if faction.len() > 0 && !contains_id(factions, string_of(faction.as_slice()).as_str()) {
            Some(BuildError::UnknownFaction { mob: own(d.id.as_str()), faction: string_of(faction.as_slice()) })
        } else {
            match first_unknown_exec(&d.abilities, abilities) {
                Some(a) => Some(BuildError::UnknownAbility { mob: own(d.id.as_str()), ability: a }),
                None => None,
            }
        };
        assert(opt_failure(check) == mob_check(*d, fs, abs));
        let ghost ib = text_views(ids@);
        let ghost cb = failure_views(checks@);
        let ghost cv = opt_failure(check);
        ids.push(own(d.id.as_str()));
        checks.push(check);
        proof {
            assert(text_views(ids@) =~= ib.push(ds@[i as int].id@));
            assert(failure_views(checks@) =~= cb.push(cv));
            assert(ds@.take(i + 1).map_values(|d: MobDocument| d.id@)
                =~= ds@.take(i as int).map_values(|d: MobDocument| d.id@).push(ds@[i as int].id@));
            assert(ds@.take(i + 1).map_values(|d: MobDocument| mob_check(d, fs, abs))
                =~= ds@.take(i as int).map_values(|d: MobDocument| mob_check(d, fs, abs)).push(mob_check(ds@[i as int], fs, abs)));
        }
        i = i + 1;
    }
    assert(ds@.take(i as int) =~= ds@);
    (ids, checks)
}


// ----- the zone ---------------------------------------------------------------------------

/// The zones the placement documents and spawn tables declare, in order.
pub open spec fn declared_zones(t: SourceTree) -> Seq<Seq<char>> {
    t.placement_documents@.map_values(|d: PlacementDocument| d.zone@)
        + t.tables@.map_values(|d: SpawnTableDocument| d.zone@)
}

/// The first of the first `n` zones that differs from the first one.
pub open spec fn first_other(zs: Seq<Seq<char>>, n: int) -> Option<int>
    decreases n,
{
    if n <= 0 {
        None
    } else {
        match first_other(zs, n - 1) {
            Some(k) => Some(k),
            None => if zs[n - 1] != zs[0] { Some(n - 1) } else { None },
        }
    }
}

proof fn lemma_other_stays(zs: Seq<Seq<char>>, m: int, n: int)
    requires
        m <= n,
        first_other(zs, m) is Some,
    ensures
        first_other(zs, n) == first_other(zs, m),
    decreases n - m,
{
    if m < n {
        lemma_other_stays(zs, m, n - 1);
    }
}

/// The pack's zone id: the one zone every document declares, which must be
/// the requested one when a zone is requested; the requested one when no
/// document declares any.
pub open spec fn zone_outcome(zs: Seq<Seq<char>>, wanted: Option<Seq<char>>) -> Result<Seq<char>, BuildFailure> {
    match first_other(zs, zs.len() as int) {
        Some(k) => Err(BuildFailure::MixedZones(zs[0], zs[k])),
        None => if zs.len() > 0 {
            match wanted {
                Some(w) => if zs[0] != "zone."@ + w {
                    Err(BuildFailure::ZoneMismatch(zs[0], "zone."@ + w))
                } else {
                    Ok(zs[0])
                },
                None => Ok(zs[0]),
            }
        } else {
            match wanted {
                Some(w) => Ok("zone."@ + w),
                None => Err(BuildFailure::NoZone),
            }
        },
    }
}

pub open spec fn opt_str(o: Option<&str>) -> Option<Seq<char>> {
    match o {
        Some(s) => Some(s@),
        None => None,
    }
}

fn zone_stage(t: &SourceTree, wanted: Option<&str>) -> (r: Result<String, BuildError>)
    ensures
        match zone_outcome(declared_zones(*t), opt_str(wanted)) {
            Ok(z) => r matches Ok(s) && s@ == z,
            Err(f) => r matches Err(e) && failure_of(e) == f,
        },
{
    let ghost zs = declared_zones(*t);
    let mut zones: Vec<String> = Vec::new();
    let mut i: usize = 0;
    while i < t.placement_documents.len()
        invariant
            i <= t.placement_documents@.len(),
            text_views(zones@) == t.placement_documents@.take(i as int).map_values(|d: PlacementDocument| d.zone@),
        decreases t.placement_documents@.len() - i,
    {
        let ghost zb = text_views(zones@);
        zones.push(own(t.placement_documents[i].zone.as_str()));
        proof {
            assert(text_views(zones@) =~= zb.push(t.placement_documents@[i as int].zone@));
            assert(t.placement_documents@.take(i + 1).map_values(|d: PlacementDocument| d.zone@)
                =~= t.placement_documents@.take(i as int).map_values(|d: PlacementDocument| d.zone@).push(t.placement_documents@[i as int].zone@));
        }
        i = i + 1;
    }
    assert(t.placement_documents@.take(i as int) =~= t.placement_documents@);
    let ghost head = text_views(zones@);
    let mut j: usize = 0;
    while j < t.tables.len()
        invariant
            j <= t.tables@.len(),
            text_views(zones@) == head + t.tables@.take(j as int).map_values(|d: SpawnTableDocument| d.zone@),
        decreases t.tables@.len() - j,
    {
        let ghost zb = text_views(zones@);
        zones.push(own(t.tables[j].zone.as_str()));
        proof {
            assert(text_views(zones@) =~= zb.push(t.tables@[j as int].zone@));
            assert(t.tables@.take(j + 1).map_values(|d: SpawnTableDocument| d.zone@)
                =~= t.tables@.take(j as int).map_values(|d: SpawnTableDocument| d.zone@).push(t.tables@[j as int].zone@));
        }
        j = j + 1;
    }
    assert(t.tables@.take(j as int) =~= t.tables@);
    assert(text_views(zones@) =~= zs);
    let mut k: usize = 0;
    while k < zones.len()
        invariant
            text_views(zones@) == zs,
            zs == declared_zones(*t),
            k <= zs.len(),
            first_other(zs, k as int) is None,
        decreases zs.len() - k,
    {
        let a = chars_of(zones[k].as_str());
        let b = chars_of(zones[0].as_str());
        if !crate::text::seq_eq(a.as_slice(), b.as_slice()) {
            proof {
                assert(first_other(zs, k + 1) == Some(k as int));
                lemma_other_stays(zs, k + 1, zs.len() as int);
            }
            return Err(BuildError::MixedZones { first: own(zones[0].as_str()), second: own(zones[k].as_str()) });
        }
        k = k + 1;
    }
    if zones.len() > 0 {
        match wanted {
            Some(w) => {
                let mut expected = chars_of("zone.");
                push_str(&mut expected, w);
                let found = chars_of(zones[0].as_str());
                if !crate::text::seq_eq(found.as_slice(), expected.as_slice()) {
                    return Err(BuildError::ZoneMismatch { declared: own(zones[0].as_str()), requested: string_of(expected.as_slice()) });
                }
                Ok(own(zones[0].as_str()))
            },
            None => Ok(own(zones[0].as_str())),
        }
    } else {
        match wanted {
            Some(w) => {
                let mut expected = chars_of("zone.");
                push_str(&mut expected, w);
                Ok(string_of(expected.as_slice()))
            },
            None => Err(BuildError::NoZone),
        }
    }
}


// ----- the whole tree ---------------------------------------------------------------------

/// The zone and each table's row keys, in id order.
#[derive(Debug)]
pub struct PackKeys {
    pub zone_id: String,
    /// The zone id without its `zone.` prefix.
    pub zone_slug: String,
    pub spawn_tables: Vec<String>,
    pub placements: Vec<String>,
    pub abilities: Vec<String>,
    pub factions: Vec<String>,
    pub mobs: Vec<String>,
    pub chargen_options: Vec<String>,
    pub items: Vec<String>,
    pub loot_tables: Vec<String>,
}

pub open spec fn refused(r: Result<PackKeys, BuildError>, f: BuildFailure) -> bool {
    r matches Err(e) && failure_of(e) == f
}

/// A table's row keys: its ids, once each, ascending.
pub open spec fn keys_are(keys: Vec<String>, ids: Seq<Seq<char>>) -> bool {
    ascending(keys@) && id_set(keys@) == ids.to_set()
}

pub open spec fn keys_of(t: SourceTree, z: Seq<char>, k: PackKeys) -> bool {
    &&& k.zone_id@ == z
    &&& k.zone_slug@ == z.skip(5)
    &&& keys_are(k.spawn_tables, spawn_ids(t))
    &&& keys_are(k.placements, placement_ids(t))
    &&& keys_are(k.abilities, ability_ids(t))
    &&& keys_are(k.factions, faction_ids(t))
    &&& keys_are(k.mobs, mob_ids(t))
    &&& keys_are(k.chargen_options, chargen_ids(t))
    &&& keys_are(k.items, item_ids(t))
    &&& keys_are(k.loot_tables, loot_ids(t))
}

/// The tables after the zone, each in turn: spawn tables, placements (of
/// which there must be one), abilities, factions, mobs, character-creation
/// options, items and loot tables.
pub open spec fn tables_outcome(t: SourceTree, z: Seq<char>, r: Result<PackKeys, BuildError>) -> bool {
    match stage_failure(spawn_ids(t), spawn_fails(t), "spawn table"@, spawn_ids(t).len() as int) {
        Some(f) => refused(r, f),
        None => match stage_failure(placement_ids(t), placement_fails(t, spawn_ids(t).to_set()), "placement"@,
            placement_ids(t).len() as int) {
            Some(f) => refused(r, f),
            None => if placement_ids(t).len() == 0 {
                refused(r, BuildFailure::NoPlacements)
            } else {
                match stage_failure(ability_ids(t), nones(ability_ids(t).len()), "ability"@, ability_ids(t).len() as int) {
                    Some(f) => refused(r, f),
                    None => match stage_failure(faction_ids(t), nones(faction_ids(t).len()), "faction"@, faction_ids(t).len() as int) {
                        Some(f) => refused(r, f),
                        None => match stage_failure(mob_ids(t), mob_fails(t, faction_ids(t).to_set(), ability_ids(t).to_set()),
                            "mob"@, mob_ids(t).len() as int) {
                            Some(f) => refused(r, f),
                            None => match stage_failure(chargen_ids(t), chargen_fails(t), "chargen option"@, chargen_ids(t).len() as int) {
                                Some(f) => refused(r, f),
                                None => match stage_failure(item_ids(t), nones(item_ids(t).len()), "item"@, item_ids(t).len() as int) {
                                    Some(f) => refused(r, f),
                                    None => match stage_failure(loot_ids(t), loot_fails(t, item_ids(t).to_set()), "loot table"@,
                                        loot_ids(t).len() as int) {
                                        Some(f) => refused(r, f),
                                        None => r matches Ok(k) && keys_of(t, z, k),
                                    },
                                },
                            },
                        },
                    },
                }
            },
        },
    }
}

/// What checking a tree gives: the first rule it breaks, or its zone and
/// row keys.
pub open spec fn tree_outcome(t: SourceTree, wanted: Option<Seq<char>>, r: Result<PackKeys, BuildError>) -> bool {
    match zone_outcome(declared_zones(t), wanted) {
        Err(f) => refused(r, f),
        Ok(z) => if !has_prefix(z, "zone."@) { refused(r, BuildFailure::BadZoneId(z)) } else { tables_outcome(t, z, r) },
    }
}

/// Checks that a source tree can become a pack of the zone `zone` (or the
/// one its documents declare) and gives each table's row keys in id order.
/// The rules go in the order a build meets them: the zone first, then each
/// table's documents in order, each one's own rule before a repeat of its id.
pub fn pack_keys(tree: &SourceTree, zone: Option<&str>) -> (r: Result<PackKeys, BuildError>)
    ensures
        tree_outcome(*tree, opt_str(zone), r),
{
    let zone_id = match zone_stage(tree, zone) {
        Ok(z) => z,
        Err(e) => {
            return Err(e);
        },
    };
    let zc = chars_of(zone_id.as_str());
    if !starts_with_str(zc.as_slice(), "zone.") {
        return Err(BuildError::BadZoneId { zone: zone_id });
    }
    proof {
        reveal_strlit("zone.");
        assert(zc@.len() >= 5);
    }
    let slug = crate::text::slice_range(zc.as_slice(), 5, zc.len());
    assert(slug@ =~= zone_id@.skip(5));

    let (ids, checks) = spawn_input(&tree.tables);
    let spawn_tables = match keyed_stage("spawn table", &ids, checks) {
        Ok(k) => k,
        Err(e) => {
            return Err(e);
        },
    };
    let (ids, checks) = placement_input(&tree.placement_documents, &spawn_tables);
    let placements = match keyed_stage("placement", &ids, checks) {
        Ok(k) => k,
        Err(e) => {
            return Err(e);
        },
    };
    if ids.len() == 0 {
        return Err(BuildError::NoPlacements);
    }
    let ids = ability_input(&tree.abilities);
    let abilities = match keyed_stage("ability", &ids, no_failures(ids.len())) {
        Ok(k) => k,
        Err(e) => {
            return Err(e);
        },
    };
    let ids = faction_input(&tree.factions);
    let factions = match keyed_stage("faction", &ids, no_failures(ids.len())) {
        Ok(k) => k,
        Err(e) => {
            return Err(e);
        },
    };
    let (ids, checks) = mob_input(&tree.mobs, &factions, &abilities);
    let mobs = match keyed_stage("mob", &ids, checks) {
        Ok(k) => k,
        Err(e) => {
            return Err(e);
        },
    };
    let (ids, checks) = chargen_input(&tree.chargen_options);
    let chargen_options = match keyed_stage("chargen option", &ids, checks) {
        Ok(k) => k,
        Err(e) => {
            return Err(e);
        },
    };
    let ids = item_input(&tree.items);
    let items = match keyed_stage("item", &ids, no_failures(ids.len())) {
        Ok(k) => k,
        Err(e) => {
            return Err(e);
        },
    };
    let (ids, checks) = loot_input(&tree.loot_tables, &items);
    let loot_tables = match keyed_stage("loot table", &ids, checks) {
        Ok(k) => k,
        Err(e) => {
            return Err(e);
        },
    };
    Ok(PackKeys {
        zone_id,
        zone_slug: string_of(slug.as_slice()),
        spawn_tables,
        placements,
        abilities,
        factions,
        mobs,
        chargen_options,
        items,
        loot_tables,
    })
}

} // verus!
