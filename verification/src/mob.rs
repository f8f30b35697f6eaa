//! One zone mob as a zone extraction writes it: its identity, its kind,
//! faction and quality, its level range, the quests it offers and the
//! abilities it carries, and everything else it says kept verbatim. The
//! walk speed is decimal text; reading it as a number happens where the
//! document is written.

use vstd::prelude::*;
use crate::item::opt_i64;
use crate::mobkind::{href_ref, opt_ref_view, ref_views};
use crate::model::{LocRefs, Provenance, ResourceRef};
use crate::overlay::{Doc, entries_view};
use crate::quest::{localized, refs_in, localized_exec, refs_in_exec, ref_opt};
use crate::text::{chars_of, string_of, push_str};
use crate::xml::{XmlDoc, XmlElement, child_of, text_of, href_of, opt_string, extra_fields_of, str_views};

verus! {

#[derive(Debug)]
pub struct MobDocument {
    pub schema_version: u8,
    pub id: String,
    pub kind: String,
    pub zone: String,
    pub source_type: String,
    pub resource_id: Option<u64>,
    pub loc_ref: LocRefs,
    pub visual_ref: Option<String>,
    pub mob_kind: Option<ResourceRef>,
    pub faction: Option<ResourceRef>,
    pub quality: Option<ResourceRef>,
    pub level_min: Option<i64>,
    pub level_max: Option<i64>,
    /// Decimal text.
    pub walk_speed: Option<String>,
    pub quests: Vec<ResourceRef>,
    pub abilities: Vec<ResourceRef>,
    pub extra: Vec<(String, Doc)>,
    pub source: Provenance,
}

pub open spec fn mob_mapped() -> Seq<Seq<char>> {
    seq!["Header"@, "name"@, "title"@, "visMob"@, "kind"@, "faction"@, "quality"@, "levelMin"@, "levelMax"@,
        "walkSpeed"@, "interactions"@, "personalAbilities"@]
}

/// The quests a mob offers: the references under `interactions/availableQuests`.
pub open spec fn offered_quests(es: Seq<XmlElement>) -> Seq<(Option<Seq<char>>, Seq<char>)> {
    match child_of(es, 0, "interactions"@) {
        Some(i) => refs_in(es, i, "availableQuests"@),
        None => Seq::empty(),
    }
}

/// What a mob document holds, read from its source.
pub open spec fn mob_fields(d: MobDocument, es: Seq<XmlElement>, id: Seq<char>, zone: Seq<char>, src: Seq<char>,
    referrer: Seq<char>) -> bool
{
    &&& d.schema_version == 1
    &&& d.id@ == id
    &&& d.kind@ == "mob"@
    &&& d.zone@ == "zone."@ + zone
    &&& d.source_type@ == es[0].name@
    &&& d.resource_id == match child_of(es, 0, "Header"@) {
        Some(h) => match text_of(es, h, "resourceId"@) { Some(t) => crate::script::parse_u64_of(t), None => None },
        None => None,
    }
    &&& opt_string(d.loc_ref.name) == localized(es, 0, "name"@, src, referrer)
    &&& opt_string(d.loc_ref.title) == localized(es, 0, "title"@, src, referrer)
    &&& d.loc_ref.description is None && d.loc_ref.bind_description is None && d.loc_ref.goal is None
    &&& d.loc_ref.start is None && d.loc_ref.check is None && d.loc_ref.finish is None
    &&& opt_string(d.visual_ref) == href_of(es, 0, "visMob"@)
    &&& opt_ref_view(d.mob_kind) == href_ref(href_of(es, 0, "kind"@))
    &&& opt_ref_view(d.faction) == href_ref(href_of(es, 0, "faction"@))
    &&& opt_ref_view(d.quality) == href_ref(href_of(es, 0, "quality"@))
    &&& d.level_min == opt_i64(es, 0, "levelMin"@)
    &&& d.level_max == opt_i64(es, 0, "levelMax"@)
    &&& opt_string(d.walk_speed) == text_of(es, 0, "walkSpeed"@)
    &&& ref_views(d.quests@) == offered_quests(es)
    &&& ref_views(d.abilities@) == refs_in(es, 0, "personalAbilities"@)
    &&& entries_view(d.extra@) == extra_fields_of(es, 0, mob_mapped())
}

fn mob_excluded() -> (out: Vec<&'static str>)
    ensures
        str_views(out@) == mob_mapped(),
{
    let mut v: Vec<&'static str> = Vec::new();
    v.push("Header");
    v.push("name");
    v.push("title");
    v.push("visMob");
    v.push("kind");
    v.push("faction");
    v.push("quality");
    v.push("levelMin");
    v.push("levelMax");
    v.push("walkSpeed");
    v.push("interactions");
    v.push("personalAbilities");
    assert(str_views(v@) =~= mob_mapped());
    v
}

/// A mob document from its parsed resource, its id and its zone's slug.
pub fn mob_document(doc: &XmlDoc, id: String, zone: &str, src: &str, referrer: &str, source: Provenance) -> (d: MobDocument)
    ensures
        mob_fields(d, doc@, id@, zone@, src@, referrer@),
        d.source == source,
{
    let n = doc.len();
    let mut zone_id = chars_of("zone.");
    push_str(&mut zone_id, zone);
    proof { reveal_strlit("zone."); }
    assert(zone_id@ =~= "zone."@ + zone@);
    let quests = match doc.child(0, "interactions") {
        Some(i) => refs_in_exec(doc, i, "availableQuests"),
        None => {
            let v: Vec<ResourceRef> = Vec::new();
            assert(ref_views(v@) =~= Seq::<(Option<Seq<char>>, Seq<char>)>::empty());
            v
        },
    };
    let excluded = mob_excluded();
    MobDocument {
        schema_version: 1,
        id,
        kind: string_of(chars_of("mob").as_slice()),
        zone: string_of(zone_id.as_slice()),
        source_type: string_of(chars_of(doc.element(0).name.as_str()).as_slice()),
        resource_id: doc.resource_id(0),
        loc_ref: LocRefs {
            name: localized_exec(doc, 0, "name", src, referrer),
            description: None,
            bind_description: None,
            goal: None,
            start: None,
            check: None,
            finish: None,
            title: localized_exec(doc, 0, "title", src, referrer),
        },
        visual_ref: doc.href(0, "visMob"),
        mob_kind: ref_opt(doc.href(0, "kind")),
        faction: ref_opt(doc.href(0, "faction")),
        quality: ref_opt(doc.href(0, "quality")),
        level_min: doc.i64_value(0, "levelMin"),
        level_max: doc.i64_value(0, "levelMax"),
        walk_speed: doc.text(0, "walkSpeed"),
        quests,
        abilities: refs_in_exec(doc, 0, "personalAbilities"),
        extra: doc.extra_fields(0, excluded.as_slice()),
        source,
    }
}

/// Mob `m` offers the quest with id `q`.
pub open spec fn offers(m: MobDocument, q: Seq<char>) -> bool {
    exists|k: int| 0 <= k < m.quests@.len() && names_quest(#[trigger] m.quests@[k], q)
}

/// A reference whose minted id is `q`.
pub open spec fn names_quest(r: ResourceRef, q: Seq<char>) -> bool {
    r.id matches Some(x) && x@ == q
}

/// The first of `mobs` that offers quest `q`.
pub open spec fn first_offering(mobs: Seq<MobDocument>, q: Seq<char>) -> Option<int> {
    if exists|i: int| 0 <= i < mobs.len() && offers(#[trigger] mobs[i], q) {
        Some(choose|i: int| 0 <= i < mobs.len() && offers(#[trigger] mobs[i], q)
            && forall|j: int| 0 <= j < i ==> !offers(#[trigger] mobs[j], q))
    } else {
        None
    }
}

fn mob_offers(m: &MobDocument, q: &str) -> (r: bool)
    ensures
        r == offers(*m, q@),
{
    let qc = chars_of(q);
    let mut k: usize = 0;
    while k < m.quests.len()
        invariant
            k <= m.quests@.len(),
            qc@ == q@,
            forall|j: int| 0 <= j < k ==> !names_quest(#[trigger] m.quests@[j], q@),
        decreases m.quests@.len() - k,
    {
        match &m.quests[k].id {
            Some(x) => if crate::text::seq_eq(chars_of(x.as_str()).as_slice(), qc.as_slice()) {
                assert(names_quest(m.quests@[k as int], q@));
                return true;
            },
            None => {},
        }
        k = k + 1;
    }
    false
}

/// The mob that starts quest `quest_id`: the first of the zone's mobs, in
/// their source order, that offers it, referred to by its id and its source
/// path; none when no mob offers it.
pub fn quest_starter(mobs: &Vec<MobDocument>, quest_id: &str) -> (r: Option<ResourceRef>)
    ensures
        match first_offering(mobs@, quest_id@) {
            Some(i) => r matches Some(s) && names_quest(s, mobs@[i].id@) && s.href@ == mobs@[i].source.path@,
            None => r is None,
        },
{
    let mut i: usize = 0;
    while i < mobs.len()
        invariant
            i <= mobs@.len(),
            forall|j: int| 0 <= j < i ==> !offers(#[trigger] mobs@[j], quest_id@),
        decreases mobs@.len() - i,
    {
        if mob_offers(&mobs[i], quest_id) {
            proof {
                assert(offers(mobs@[i as int], quest_id@));
                let c = choose|c: int| 0 <= c < mobs@.len() && offers(#[trigger] mobs@[c], quest_id@)
                    && forall|j: int| 0 <= j < c ==> !offers(#[trigger] mobs@[j], quest_id@);
                if c < i {
                } else if c > i {
                    assert(!offers(mobs@[i as int], quest_id@));
                }
            }
            return Some(ResourceRef {
                id: Some(string_of(chars_of(mobs[i].id.as_str()).as_slice())),
                href: string_of(chars_of(mobs[i].source.path.as_str()).as_slice()),
            });
        }
        i = i + 1;
    }
    None
}

} // verus!
