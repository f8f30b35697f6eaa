//! A zone's documents from its source files: the mob instances, the quests
//! and the spawn tables, each file kept only when its root element is of the
//! expected kind, each document under the canonical id its path mints, and
//! each quest started by the first mob that offers it.

use vstd::prelude::*;
use crate::mob::{MobDocument, mob_document, quest_starter, first_offering, mob_fields, offers};
use crate::mobkind::opt_ref_view;
use crate::model::Provenance;
use crate::quest::{QuestDocument, quest_document, quest_fields};
use crate::reference::{canonical_id_of, canonical_id_from_source_path, opt_text};
use crate::spawn::{SpawnTableDocument, spawn_table_document, spawn_table_fields};
use crate::text::{chars_of, string_of, eq_str, push_str};
use crate::xml::XmlDoc;

verus! {

/// One source file of a zone.
#[derive(Debug)]
pub struct ZoneSource {
    /// The path it was read from, which its relative hrefs resolve against.
    pub path: String,
    pub doc: XmlDoc,
    /// Where it was read from; its path below the source root mints the id.
    pub source: Provenance,
}

/// What a zone's files give.
#[derive(Debug)]
pub struct ZoneExtraction {
    pub mobs: Vec<MobDocument>,
    pub quests: Vec<QuestDocument>,
    pub spawn_tables: Vec<SpawnTableDocument>,
}

/// A kept file whose path mints no canonical id.
#[derive(Debug)]
pub enum ZoneError {
    NoMobId { path: String },
    NoQuestId { path: String },
    NoSpawnTableId { path: String },
}

pub open spec fn zone_error_text(e: ZoneError) -> Seq<char> {
    match e {
        ZoneError::NoMobId { path } => "build mob ID from "@ + path@,
        ZoneError::NoQuestId { path } => "build quest ID from "@ + path@,
        ZoneError::NoSpawnTableId { path } => "build spawn table ID from "@ + path@,
    }
}

impl ZoneError {
    /// What the refusal says.
    pub fn message(&self) -> (r: String)
        ensures
            r@ == zone_error_text(*self),
    {
        let mut out: Vec<char> = Vec::new();
        match self {
            ZoneError::NoMobId { path } => {
                push_str(&mut out, "build mob ID from ");
                push_str(&mut out, path.as_str());
            },
            ZoneError::NoQuestId { path } => {
                push_str(&mut out, "build quest ID from ");
                push_str(&mut out, path.as_str());
            },
            ZoneError::NoSpawnTableId { path } => {
                push_str(&mut out, "build spawn table ID from ");
                push_str(&mut out, path.as_str());
            },
        }
        string_of(out.as_slice())
    }
}

pub open spec fn mob_tag() -> Seq<char> {
    "gameMechanics.world.mob.MobWorld"@
}

pub open spec fn quest_tag() -> Seq<char> {
    "gameMechanics.constructor.schemes.quest.QuestResource"@
}

pub open spec fn spawn_tag() -> Seq<char> {
    "gameMechanics.map.spawn.SpawnTable"@
}

/// The id a source's path mints.
pub open spec fn id_of_source(s: ZoneSource) -> Option<Seq<char>> {
    canonical_id_of(s.source.path@)
}

/// Where, among the first `n` of `ss`, the files whose root is `tag` stand.
pub open spec fn kept(ss: Seq<ZoneSource>, tag: Seq<char>, n: int) -> Seq<int>
    decreases n,
{
    if n <= 0 {
        Seq::empty()
    } else if ss[n - 1].doc@[0].name@ == tag {
        kept(ss, tag, n - 1).push(n - 1)
    } else {
        kept(ss, tag, n - 1)
    }
}

/// The first of the first `n` of `ss` kept under `tag` whose path mints no id.
pub open spec fn first_unminted(ss: Seq<ZoneSource>, tag: Seq<char>, n: int) -> Option<int>
    decreases n,
{
    if n <= 0 {
        None
    } else {
        match first_unminted(ss, tag, n - 1) {
            Some(i) => Some(i),
            None => if ss[n - 1].doc@[0].name@ == tag && id_of_source(ss[n - 1]) is None {
                Some(n - 1)
            } else {
                None
            },
        }
    }
}

/// The starter of quest `q`: the first of `mobs` that offers it.
pub open spec fn starter_view(mobs: Seq<MobDocument>, q: Seq<char>) -> Option<(Option<Seq<char>>, Seq<char>)> {
    match first_offering(mobs, q) {
        Some(i) => Some((Some(mobs[i].id@), mobs[i].source.path@)),
        None => None,
    }
}

pub open spec fn mob_read(s: ZoneSource, zone: Seq<char>, src: Seq<char>, d: MobDocument) -> bool {
    &&& mob_fields(d, s.doc@, id_of_source(s)->0, zone, src, s.path@)
    &&& d.source == s.source
}

pub open spec fn quest_read(s: ZoneSource, zone: Seq<char>, src: Seq<char>, mobs: Seq<MobDocument>, d: QuestDocument) -> bool {
    let id = id_of_source(s)->0;
    &&& quest_fields(d, s.doc@, id, zone, starter_view(mobs, id), src, s.path@)
    &&& d.source == s.source
}

pub open spec fn spawn_read(s: ZoneSource, zone: Seq<char>, d: SpawnTableDocument) -> bool {
    &&& spawn_table_fields(d, s.doc@, id_of_source(s)->0, zone)
    &&& d.source == s.source
}

/// `out` holds a mob document for each kept mob file, in order.
pub open spec fn mobs_read(ss: Seq<ZoneSource>, zone: Seq<char>, src: Seq<char>, out: Seq<MobDocument>) -> bool {
    let ks = kept(ss, mob_tag(), ss.len() as int);
    &&& out.len() == ks.len()
    &&& forall|k: int| 0 <= k < out.len() ==> mob_read(ss[ks[k]], zone, src, #[trigger] out[k])
}

/// `out` holds a quest document for each kept quest file, in order, each
/// started by the first of `mobs` that offers it.
pub open spec fn quests_read(ss: Seq<ZoneSource>, zone: Seq<char>, src: Seq<char>, mobs: Seq<MobDocument>,
    out: Seq<QuestDocument>) -> bool
{
    let ks = kept(ss, quest_tag(), ss.len() as int);
    &&& out.len() == ks.len()
    &&& forall|k: int| 0 <= k < out.len() ==> quest_read(ss[ks[k]], zone, src, mobs, #[trigger] out[k])
}

/// `out` holds a spawn table document for each kept spawn table file, in order.
pub open spec fn spawns_read(ss: Seq<ZoneSource>, zone: Seq<char>, out: Seq<SpawnTableDocument>) -> bool {
    let ks = kept(ss, spawn_tag(), ss.len() as int);
    &&& out.len() == ks.len()
    &&& forall|k: int| 0 <= k < out.len() ==> spawn_read(ss[ks[k]], zone, #[trigger] out[k])
}

proof fn lemma_unminted_stays(ss: Seq<ZoneSource>, tag: Seq<char>, m: int, n: int)
    requires
        m <= n,
        first_unminted(ss, tag, m) is Some,
    ensures
        first_unminted(ss, tag, n) == first_unminted(ss, tag, m),
    decreases n - m,
{
    if m < n {
        lemma_unminted_stays(ss, tag, m, n - 1);
    }
}

fn source_id(s: &ZoneSource) -> (r: Option<String>)
    ensures
        opt_text(r) == id_of_source(*s),
{
    canonical_id_from_source_path(s.source.path.as_str())
}

fn root_is(doc: &XmlDoc, tag: &str) -> (r: bool)
    ensures
        r == (doc@[0].name@ == tag@),
{
    let n = doc.len();
    let name = chars_of(doc.element(0).name.as_str());
    eq_str(name.as_slice(), tag)
}

fn read_mobs(sources: Vec<ZoneSource>, zone: &str, src: &str) -> (r: Result<Vec<MobDocument>, ZoneError>)
    ensures
        match first_unminted(sources@, mob_tag(), sources@.len() as int) {
            Some(i) => r matches Err(ZoneError::NoMobId { path }) && path@ == sources@[i].source.path@,
            None => r matches Ok(out) && mobs_read(sources@, zone@, src@, out@),
        },
{
    let ghost ss = sources@;
    let total = sources.len();
    let mut rest = sources;
    let mut out: Vec<MobDocument> = Vec::new();
    let mut i: usize = 0;
    while rest.len() > 0
        invariant
            i <= ss.len(),
            ss.len() == total,
            ss == sources@,
            rest@ == ss.skip(i as int),
            first_unminted(ss, mob_tag(), i as int) is None,
            out@.len() == kept(ss, mob_tag(), i as int).len(),
            forall|k: int| 0 <= k < out@.len() ==> mob_read(ss[kept(ss, mob_tag(), i as int)[k]], zone@, src@, #[trigger] out@[k]),
        decreases rest@.len(),
    {
        let s = rest.remove(0);
        assert(s == ss[i as int]);
        if root_is(&s.doc, "gameMechanics.world.mob.MobWorld") {
            match source_id(&s) {
                None => {
                    proof {
                        assert(first_unminted(ss, mob_tag(), i as int + 1) == Some(i as int));
                        lemma_unminted_stays(ss, mob_tag(), i + 1, ss.len() as int);
                    }
                    let path = s.source.path;
                    return Err(ZoneError::NoMobId { path });
                },
                Some(id) => {
                    let ghost ks = kept(ss, mob_tag(), i as int);
                    let ghost before = out@;
                    let d = mob_document(&s.doc, id, zone, src, s.path.as_str(), s.source);
                    out.push(d);
                    proof {
                        assert(kept(ss, mob_tag(), i + 1) == ks.push(i as int));
                        assert forall|k: int| 0 <= k < out@.len() implies mob_read(ss[kept(ss, mob_tag(), i + 1)[k]], zone@, src@, #[trigger] out@[k]) by {
                            if k < ks.len() {
                                assert(out@[k] == before[k]);
                            }
                        }
                    }
                },
            }
        }
        i = i + 1;
    }
    assert(ss.skip(i as int).len() == 0);
    Ok(out)
}


fn read_quests(sources: Vec<ZoneSource>, zone: &str, src: &str, mobs: &Vec<MobDocument>) -> (r: Result<Vec<QuestDocument>, ZoneError>)
    ensures
        match first_unminted(sources@, quest_tag(), sources@.len() as int) {
            Some(i) => r matches Err(ZoneError::NoQuestId { path }) && path@ == sources@[i].source.path@,
            None => r matches Ok(out) && quests_read(sources@, zone@, src@, mobs@, out@),
        },
{
    let ghost ss = sources@;
    let total = sources.len();
    let mut rest = sources;
    let mut out: Vec<QuestDocument> = Vec::new();
    let mut i: usize = 0;
    while rest.len() > 0
        invariant
            i <= ss.len(),
            ss.len() == total,
            ss == sources@,
            rest@ == ss.skip(i as int),
            first_unminted(ss, quest_tag(), i as int) is None,
            out@.len() == kept(ss, quest_tag(), i as int).len(),
            forall|k: int| 0 <= k < out@.len() ==> quest_read(ss[kept(ss, quest_tag(), i as int)[k]], zone@, src@, mobs@, #[trigger] out@[k]),
        decreases rest@.len(),
    {
        let s = rest.remove(0);
        assert(s == ss[i as int]);
        if root_is(&s.doc, "gameMechanics.constructor.schemes.quest.QuestResource") {
            match source_id(&s) {
                None => {
                    proof {
                        assert(first_unminted(ss, quest_tag(), i as int + 1) == Some(i as int));
                        lemma_unminted_stays(ss, quest_tag(), i + 1, ss.len() as int);
                    }
                    let path = s.source.path;
                    return Err(ZoneError::NoQuestId { path });
                },
                Some(id) => {
                    let ghost ks = kept(ss, quest_tag(), i as int);
                    let ghost before = out@;
                    let starter = quest_starter(mobs, id.as_str());
                    assert(opt_ref_view(starter) == starter_view(mobs@, id@));
                    let d = quest_document(&s.doc, id, zone, starter, src, s.path.as_str(), s.source);
                    out.push(d);
                    proof {
                        assert(kept(ss, quest_tag(), i + 1) == ks.push(i as int));
                        assert forall|k: int| 0 <= k < out@.len() implies quest_read(ss[kept(ss, quest_tag(), i + 1)[k]], zone@, src@, mobs@, #[trigger] out@[k]) by {
                            if k < ks.len() {
                                assert(out@[k] == before[k]);
                            }
                        }
                    }
                },
            }
        }
        i = i + 1;
    }
    assert(ss.skip(i as int).len() == 0);
    Ok(out)
}


fn read_spawns(sources: Vec<ZoneSource>, zone: &str) -> (r: Result<Vec<SpawnTableDocument>, ZoneError>)
    ensures
        match first_unminted(sources@, spawn_tag(), sources@.len() as int) {
            Some(i) => r matches Err(ZoneError::NoSpawnTableId { path }) && path@ == sources@[i].source.path@,
            None => r matches Ok(out) && spawns_read(sources@, zone@, out@),
        },
{
    let ghost ss = sources@;
    let total = sources.len();
    let mut rest = sources;
    let mut out: Vec<SpawnTableDocument> = Vec::new();
    let mut i: usize = 0;
    while rest.len() > 0
        invariant
            i <= ss.len(),
            ss.len() == total,
            ss == sources@,
            rest@ == ss.skip(i as int),
            first_unminted(ss, spawn_tag(), i as int) is None,
            out@.len() == kept(ss, spawn_tag(), i as int).len(),
            forall|k: int| 0 <= k < out@.len() ==> spawn_read(ss[kept(ss, spawn_tag(), i as int)[k]], zone@, #[trigger] out@[k]),
        decreases rest@.len(),
    {
        let s = rest.remove(0);
        assert(s == ss[i as int]);
        if root_is(&s.doc, "gameMechanics.map.spawn.SpawnTable") {
            match source_id(&s) {
                None => {
                    proof {
                        assert(first_unminted(ss, spawn_tag(), i as int + 1) == Some(i as int));
                        lemma_unminted_stays(ss, spawn_tag(), i + 1, ss.len() as int);
                    }
                    let path = s.source.path;
                    return Err(ZoneError::NoSpawnTableId { path });
                },
                Some(id) => {
                    let ghost ks = kept(ss, spawn_tag(), i as int);
                    let ghost before = out@;
                    let d = spawn_table_document(&s.doc, id, zone, s.source);
                    out.push(d);
                    proof {
                        assert(kept(ss, spawn_tag(), i + 1) == ks.push(i as int));
                        assert forall|k: int| 0 <= k < out@.len() implies spawn_read(ss[kept(ss, spawn_tag(), i + 1)[k]], zone@, #[trigger] out@[k]) by {
                            if k < ks.len() {
                                assert(out@[k] == before[k]);
                            }
                        }
                    }
                },
            }
        }
        i = i + 1;
    }
    assert(ss.skip(i as int).len() == 0);
    Ok(out)
}


/// A zone's documents from its mob instance, quest and spawn table files:
/// each file is kept when its root element is of the expected kind and read
/// under the canonical id its path mints; each quest is started by the first
/// mob that offers it. The first kept file, mobs first, then quests, then
/// spawn tables, whose path mints no id is refused.
pub fn extract_zone(mob_sources: Vec<ZoneSource>, quest_sources: Vec<ZoneSource>, spawn_sources: Vec<ZoneSource>,
    zone: &str, src: &str) -> (r: Result<ZoneExtraction, ZoneError>)
    ensures
        match (first_unminted(mob_sources@, mob_tag(), mob_sources@.len() as int),
            first_unminted(quest_sources@, quest_tag(), quest_sources@.len() as int),
            first_unminted(spawn_sources@, spawn_tag(), spawn_sources@.len() as int)) {
            (Some(i), _, _) => r matches Err(ZoneError::NoMobId { path }) && path@ == mob_sources@[i].source.path@,
            (None, Some(i), _) => r matches Err(ZoneError::NoQuestId { path }) && path@ == quest_sources@[i].source.path@,
            (None, None, Some(i)) => r matches Err(ZoneError::NoSpawnTableId { path })
                && path@ == spawn_sources@[i].source.path@,
            (None, None, None) => r matches Ok(x)
                && mobs_read(mob_sources@, zone@, src@, x.mobs@)
                && quests_read(quest_sources@, zone@, src@, x.mobs@, x.quests@)
                && spawns_read(spawn_sources@, zone@, x.spawn_tables@),
        },
{
    let mobs = match read_mobs(mob_sources, zone, src) {
        Ok(m) => m,
        Err(e) => {
            return Err(e);
        },
    };
    let quests = match read_quests(quest_sources, zone, src, &mobs) {
        Ok(q) => q,
        Err(e) => {
            return Err(e);
        },
    };
    let spawn_tables = match read_spawns(spawn_sources, zone) {
        Ok(t) => t,
        Err(e) => {
            return Err(e);
        },
    };
    Ok(ZoneExtraction { mobs, quests, spawn_tables })
}


// ----- which mob kinds, factions and qualities a zone's mobs name ------------------------

/// The kinds, factions and qualities a zone's mob instances name, as paths
/// below the source root, each once and ascending.
#[derive(Debug)]
pub struct ZoneKindScope {
    pub mob_worlds: usize,
    pub kinds: Vec<String>,
    pub factions: Vec<String>,
    pub qualities: Vec<String>,
}

/// The path below `src` a source's root `field` href leads to.
pub open spec fn field_target(src: Seq<char>, s: ZoneSource, field: Seq<char>) -> Option<Seq<char>> {
    match crate::xml::href_of(s.doc@, 0, field) {
        Some(v) => match crate::scan::resolve_of(src, s.path@, v) {
            Some(p) => Some(p.1),
            None => None,
        },
        None => None,
    }
}

/// What the first `n` mob instance files name under `field`.
pub open spec fn field_targets(ss: Seq<ZoneSource>, src: Seq<char>, field: Seq<char>, n: int) -> Set<Seq<char>>
    decreases n,
{
    if n <= 0 {
        Set::empty()
    } else {
        let before = field_targets(ss, src, field, n - 1);
        if ss[n - 1].doc@[0].name@ == mob_tag() {
            match field_target(src, ss[n - 1], field) {
                Some(t) => before.insert(t),
                None => before,
            }
        } else {
            before
        }
    }
}

fn add_target(s: &ZoneSource, src: &str, field: &str, into: &mut Vec<String>)
    requires
        crate::reach::ascending(old(into)@),
    ensures
        crate::reach::ascending(final(into)@),
        crate::reach::id_set(final(into)@) == match field_target(src@, *s, field@) {
            Some(t) => crate::reach::id_set(old(into)@).insert(t),
            None => crate::reach::id_set(old(into)@),
        },
{
    let n = s.doc.len();
    match s.doc.href(0, field) {
        Some(v) => match crate::scan::resolve_href(src, s.path.as_str(), v.as_str()) {
            Some((_, relative)) => crate::reach::insert_id(into, relative.as_str()),
            None => {},
        },
        None => {},
    }
}

/// The mob kinds, factions and qualities a zone's mob instance files name,
/// each href resolved against the source root and the file that holds it;
/// files of another kind are passed over.
pub fn zone_kind_scope(sources: &Vec<ZoneSource>, src: &str) -> (r: ZoneKindScope)
    ensures
        r.mob_worlds == kept(sources@, mob_tag(), sources@.len() as int).len(),
        crate::reach::ascending(r.kinds@),
        crate::reach::ascending(r.factions@),
        crate::reach::ascending(r.qualities@),
        crate::reach::id_set(r.kinds@) == field_targets(sources@, src@, "kind"@, sources@.len() as int),
        crate::reach::id_set(r.factions@) == field_targets(sources@, src@, "faction"@, sources@.len() as int),
        crate::reach::id_set(r.qualities@) == field_targets(sources@, src@, "quality"@, sources@.len() as int),
{
    let ghost ss = sources@;
    let mut kinds: Vec<String> = Vec::new();
    let mut factions: Vec<String> = Vec::new();
    let mut qualities: Vec<String> = Vec::new();
    let mut mob_worlds: usize = 0;
    let mut i: usize = 0;
    proof {
        assert(crate::reach::id_set(kinds@) =~= Set::empty());
        assert(crate::reach::id_set(factions@) =~= Set::empty());
        assert(crate::reach::id_set(qualities@) =~= Set::empty());
    }
    while i < sources.len()
        invariant
            ss == sources@,
            i <= ss.len(),
            mob_worlds == kept(ss, mob_tag(), i as int).len(),
            kept(ss, mob_tag(), i as int).len() <= i,
            crate::reach::ascending(kinds@),
            crate::reach::ascending(factions@),
            crate::reach::ascending(qualities@),
            crate::reach::id_set(kinds@) == field_targets(ss, src@, "kind"@, i as int),
            crate::reach::id_set(factions@) == field_targets(ss, src@, "faction"@, i as int),
            crate::reach::id_set(qualities@) == field_targets(ss, src@, "quality"@, i as int),
        decreases ss.len() - i,
    {
        let s = &sources[i];
        if root_is(&s.doc, "gameMechanics.world.mob.MobWorld") {
            mob_worlds = mob_worlds + 1;
            add_target(s, src, "kind", &mut kinds);
            add_target(s, src, "faction", &mut factions);
            add_target(s, src, "quality", &mut qualities);
        }
        i = i + 1;
    }
    ZoneKindScope { mob_worlds, kinds, factions, qualities }
}

/// The loot table paths a resolved kind names, each resolved against the
/// kind's own path below `src`.
pub open spec fn kind_loot_targets(src: Seq<char>, relative: Seq<char>, refs: Seq<crate::model::ResourceRef>, n: int) -> Set<Seq<char>>
    decreases n,
{
    if n <= 0 {
        Set::empty()
    } else {
        let before = kind_loot_targets(src, relative, refs, n - 1);
        match crate::scan::resolve_of(src, crate::mobkind::referrer_of(src, relative), refs[n - 1].href@) {
            Some(p) => before.insert(p.1),
            None => before,
        }
    }
}

/// Adds the loot table paths a resolved kind names to `into`.
pub fn add_kind_loot(kind: &crate::mobkind::ResolvedKind, src: &str, relative: &str, into: &mut Vec<String>)
    requires
        crate::reach::ascending(old(into)@),
    ensures
        crate::reach::ascending(final(into)@),
        crate::reach::id_set(final(into)@) == crate::reach::id_set(old(into)@)
            + kind_loot_targets(src@, relative@, kind.loot_tables@, kind.loot_tables@.len() as int),
{
    let ghost start = crate::reach::id_set(into@);
    let mut referrer: Vec<char> = chars_of(src);
    push_str(&mut referrer, "/");
    push_str(&mut referrer, relative);
    let referrer = string_of(referrer.as_slice());
    assert(referrer@ == crate::mobkind::referrer_of(src@, relative@));
    let mut i: usize = 0;
    while i < kind.loot_tables.len()
        invariant
            i <= kind.loot_tables@.len(),
            referrer@ == crate::mobkind::referrer_of(src@, relative@),
            crate::reach::ascending(into@),
            crate::reach::id_set(into@) == start + kind_loot_targets(src@, relative@, kind.loot_tables@, i as int),
        decreases kind.loot_tables@.len() - i,
    {
        match crate::scan::resolve_href(src, referrer.as_str(), kind.loot_tables[i].href.as_str()) {
            Some((_, table)) => {
                crate::reach::insert_id(into, table.as_str());
            },
            None => {},
        }
        assert(crate::reach::id_set(into@) =~= start + kind_loot_targets(src@, relative@, kind.loot_tables@, i + 1));
        i = i + 1;
    }
}

proof fn lemma_least_offering(mobs: Seq<MobDocument>, q: Seq<char>, i: int)
    requires
        0 <= i < mobs.len(),
        offers(mobs[i], q),
    ensures
        exists|m: int| 0 <= m <= i && offers(#[trigger] mobs[m], q)
            && forall|j: int| 0 <= j < m ==> !offers(#[trigger] mobs[j], q),
    decreases i,
{
    if exists|j: int| 0 <= j < i && offers(#[trigger] mobs[j], q) {
        let j = choose|j: int| 0 <= j < i && offers(#[trigger] mobs[j], q);
        lemma_least_offering(mobs, q, j);
    } else {
        assert(offers(mobs[i], q) && forall|j: int| 0 <= j < i ==> !offers(#[trigger] mobs[j], q));
    }
}

/// A quest is started by the first mob of its zone, in listing order, that
/// offers it, and has no starter when no mob there offers it.
pub proof fn lemma_starter_is_first_offering_mob(mobs: Seq<MobDocument>, q: Seq<char>)
    ensures
        starter_view(mobs, q) is None <==> forall|i: int| 0 <= i < mobs.len() ==> !offers(#[trigger] mobs[i], q),
        starter_view(mobs, q) matches Some(st) ==> exists|i: int| 0 <= i < mobs.len() && offers(#[trigger] mobs[i], q)
            && (forall|j: int| 0 <= j < i ==> !offers(#[trigger] mobs[j], q))
            && st == (Some(mobs[i].id@), mobs[i].source.path@),
{
    if exists|i: int| 0 <= i < mobs.len() && offers(#[trigger] mobs[i], q) {
        let i = choose|i: int| 0 <= i < mobs.len() && offers(#[trigger] mobs[i], q);
        lemma_least_offering(mobs, q, i);
        let m = choose|m: int| 0 <= m <= i && offers(#[trigger] mobs[m], q)
            && forall|j: int| 0 <= j < m ==> !offers(#[trigger] mobs[j], q);
        assert(0 <= m < mobs.len() && offers(mobs[m], q) && forall|j: int| 0 <= j < m ==> !offers(#[trigger] mobs[j], q));
        let f = first_offering(mobs, q)->0;
        assert(first_offering(mobs, q) is Some);
        assert(0 <= f < mobs.len() && offers(mobs[f], q));
    }
}

} // verus!
