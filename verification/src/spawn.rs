//! One spawn table as a zone extraction writes it: an entry for each
//! `Item` of each group that names an object, with the group's slug, the
//! object, its spawn time and everything else it says, and the table's own
//! unmapped fields. Chances are decimal text; reading them as numbers
//! happens where the document is written.

use vstd::prelude::*;
use crate::item::{opt_bool, opt_slug};
use crate::mobkind::{href_ref, opt_ref_view};
use crate::model::{Provenance, ResourceRef, resource_ref};
use crate::overlay::{Doc, entries_view};
use crate::reference::{slug, slug_of};
use crate::text::{chars_of, string_of, push_str, split, split_vec, lemma_split_nonempty, views_of};
use crate::xml::{
    XmlDoc, XmlElement, child_of, text_of, href_of, attr_of, opt_string, extra_fields_of, str_views, all_children,
    named_children, lemma_all_children, lemma_named_children_bound,
};

verus! {

#[derive(Debug)]
pub struct SpawnEntry {
    pub group: String,
    pub object: ResourceRef,
    /// Decimal text.
    pub chance: Option<String>,
    pub spawn_time: Option<String>,
    pub extra: Vec<(String, Doc)>,
}

#[derive(Debug)]
pub struct SpawnTableDocument {
    pub schema_version: u8,
    pub id: String,
    pub kind: String,
    pub zone: String,
    pub source_type: String,
    pub resource_id: Option<u64>,
    pub scripted: Option<bool>,
    pub entries: Vec<SpawnEntry>,
    pub extra: Vec<(String, Doc)>,
    pub source: Provenance,
}

/// The `Item`s of the first `upto` of `groups` that name an object, each
/// with its group, in order.
pub open spec fn spawn_items(es: Seq<XmlElement>, groups: Seq<int>, upto: int) -> Seq<(int, int)>
    decreases upto,
{
    if upto <= 0 {
        Seq::empty()
    } else {
        let g = groups[upto - 1];
        spawn_items(es, groups, upto - 1) + objects_in(es, g, named_children(es, g, "Item"@, es.len() as int),
            named_children(es, g, "Item"@, es.len() as int).len() as int)
    }
}

/// The entries among the first `upto` of `items` that name an object.
pub open spec fn objects_in(es: Seq<XmlElement>, g: int, items: Seq<int>, upto: int) -> Seq<(int, int)>
    decreases upto,
{
    if upto <= 0 {
        Seq::empty()
    } else {
        let rest = objects_in(es, g, items, upto - 1);
        if href_of(es, items[upto - 1], "object"@) is Some { rest.push((g, items[upto - 1])) } else { rest }
    }
}

pub open spec fn entry_mapped() -> Seq<Seq<char>> {
    seq!["object"@, "chance"@, "spawnTime"@]
}

pub open spec fn table_mapped() -> Seq<Seq<char>> {
    seq!["Header"@, "isScriptSpawn"@]
}

/// An entry's spawn time: the slug of its `spawnTime`'s type's last segment.
pub open spec fn spawn_time_of(es: Seq<XmlElement>, e: int) -> Option<Seq<char>> {
    match child_of(es, e, "spawnTime"@) {
        Some(t) => match attr_of(es[t].attributes@, "type"@) {
            Some(v) => Some(slug_of(split(v, '.').last())),
            None => None,
        },
        None => None,
    }
}

/// Entry `e` of group `g`, read from its source.
pub open spec fn entry_of(es: Seq<XmlElement>, g: int, e: int, x: SpawnEntry) -> bool {
    &&& x.group@ == slug_of(es[g].name@)
    &&& opt_ref_view(Some(x.object)) == href_ref(href_of(es, e, "object"@))
    &&& opt_string(x.chance) == text_of(es, e, "chance"@)
    &&& opt_string(x.spawn_time) == spawn_time_of(es, e)
    &&& entries_view(x.extra@) == extra_fields_of(es, e, entry_mapped())
}

/// What a spawn table document holds, read from its source.
pub open spec fn spawn_table_fields(d: SpawnTableDocument, es: Seq<XmlElement>, id: Seq<char>, zone: Seq<char>) -> bool {
    let kids = all_children(es, 0, es.len() as int);
    let items = spawn_items(es, kids, kids.len() as int);
    &&& d.schema_version == 1
    &&& d.id@ == id
    &&& d.kind@ == "table"@
    &&& d.zone@ == "zone."@ + zone
    &&& d.source_type@ == es[0].name@
    &&& d.resource_id == match child_of(es, 0, "Header"@) {
        Some(h) => match text_of(es, h, "resourceId"@) { Some(t) => crate::script::parse_u64_of(t), None => None },
        None => None,
    }
    &&& d.scripted == opt_bool(es, 0, "isScriptSpawn"@)
    &&& d.entries@.len() == items.len()
    &&& forall|k: int| 0 <= k < items.len() ==> entry_of(es, items[k].0, items[k].1, #[trigger] d.entries@[k])
    &&& entries_view(d.extra@) == extra_fields_of(es, 0, table_mapped())
}

fn excluded_entry() -> (out: Vec<&'static str>)
    ensures
        str_views(out@) == entry_mapped(),
{
    let mut v: Vec<&'static str> = Vec::new();
    v.push("object");
    v.push("chance");
    v.push("spawnTime");
    assert(str_views(v@) =~= entry_mapped());
    v
}

fn excluded_table() -> (out: Vec<&'static str>)
    ensures
        str_views(out@) == table_mapped(),
{
    let mut v: Vec<&'static str> = Vec::new();
    v.push("Header");
    v.push("isScriptSpawn");
    assert(str_views(v@) =~= table_mapped());
    v
}

fn spawn_time_exec(doc: &XmlDoc, e: usize) -> (r: Option<String>)
    ensures
        opt_string(r) == spawn_time_of(doc@, e as int),
{
    let n = doc.len();
    match doc.child(e, "spawnTime") {
        Some(t) => match doc.attribute(t, "type") {
            Some(v) => {
                let parts = split_vec(chars_of(v.as_str()).as_slice(), '.');
                proof { lemma_split_nonempty(v@, '.'); }
                assert(views_of(parts@) == split(v@, '.'));
                assert(parts@.len() >= 1);
                let last = &parts[parts.len() - 1];
                assert(views_of(parts@)[parts@.len() - 1] == last@);
                Some(slug(string_of(last.as_slice()).as_str()))
            },
            None => None,
        },
        None => None,
    }
}

/// A spawn table document from its parsed resource, its id and its zone's
/// slug.
pub fn spawn_table_document(doc: &XmlDoc, id: String, zone: &str, source: Provenance) -> (d: SpawnTableDocument)
    ensures
        spawn_table_fields(d, doc@, id@, zone@),
        d.source == source,
{
    let n = doc.len();
    let kids = doc.child_elements(0);
    let ghost kv = kids@.map_values(|j: usize| j as int);
    proof { lemma_all_children(doc@, 0, doc@.len() as int); }
    let excluded = excluded_entry();
    let mut entries: Vec<SpawnEntry> = Vec::new();
    let ghost mut items: Seq<(int, int)> = Seq::empty();
    let mut i: usize = 0;
    while i < kids.len()
        invariant
            n == doc@.len(),
            i <= kids@.len(),
            kv == kids@.map_values(|j: usize| j as int),
            kv == all_children(doc@, 0, doc@.len() as int),
            forall|x: int| 0 <= x < kv.len() ==> crate::xml::is_child(doc@, 0, #[trigger] kv[x]) && kv[x] < doc@.len(),
            str_views(excluded@) == entry_mapped(),
            items == spawn_items(doc@, kv, i as int),
            entries@.len() == items.len(),
            forall|k: int| 0 <= k < items.len() ==> entry_of(doc@, items[k].0, items[k].1, #[trigger] entries@[k]),
        decreases kids@.len() - i,
    {
        let g = kids[i];
        assert(kv[i as int] == g as int);
        let group = slug(doc.element(g).name.as_str());
        let members = doc.children(g, "Item");
        let ghost mv = members@.map_values(|j: usize| j as int);
        proof { lemma_named_children_bound(doc@, g as int, "Item"@, doc@.len() as int); }
        let ghost base = items;
        let mut j: usize = 0;
        while j < members.len()
            invariant
                n == doc@.len(),
                j <= members@.len(),
                g < doc@.len(),
                group@ == slug_of(doc@[g as int].name@),
                mv == members@.map_values(|x: usize| x as int),
                mv == named_children(doc@, g as int, "Item"@, doc@.len() as int),
                forall|x: int| 0 <= x < mv.len() ==> 0 <= #[trigger] mv[x] < doc@.len(),
                str_views(excluded@) == entry_mapped(),
                items == base + objects_in(doc@, g as int, mv, j as int),
                entries@.len() == items.len(),
                forall|k: int| 0 <= k < items.len() ==> entry_of(doc@, items[k].0, items[k].1, #[trigger] entries@[k]),
            decreases members@.len() - j,
        {
            let e = members[j];
            assert(mv[j as int] == e as int);
            match doc.href(e, "object") {
                Some(h) => {
                    let x = SpawnEntry {
                        group: string_of(chars_of(group.as_str()).as_slice()),
                        object: resource_ref(h.as_str()),
                        chance: doc.text(e, "chance"),
                        spawn_time: spawn_time_exec(doc, e),
                        extra: doc.extra_fields(e, excluded.as_slice()),
                    };
                    let ghost old_items = items;
                    entries.push(x);
                    proof {
                        items = items.push((g as int, e as int));
                        assert(base + objects_in(doc@, g as int, mv, j + 1) =~= (base + objects_in(doc@, g as int, mv, j as int)).push((g as int, e as int)));
                    }
                    assert forall|k: int| 0 <= k < items.len() implies entry_of(doc@, items[k].0, items[k].1, #[trigger] entries@[k]) by {
                        if k < old_items.len() {
                            assert(items[k] == old_items[k]);
                        }
                    }
                },
                None => {
                    assert(base + objects_in(doc@, g as int, mv, j + 1) =~= base + objects_in(doc@, g as int, mv, j as int));
                },
            }
            j = j + 1;
        }
        proof {
            assert(spawn_items(doc@, kv, i + 1) == spawn_items(doc@, kv, i as int) + objects_in(doc@, g as int, mv, mv.len() as int));
        }
        i = i + 1;
    }
    let mut zone_id = chars_of("zone.");
    push_str(&mut zone_id, zone);
    proof { reveal_strlit("zone."); }
    assert(zone_id@ =~= "zone."@ + zone@);
    let table_excluded = excluded_table();
    SpawnTableDocument {
        schema_version: 1,
        id,
        kind: string_of(chars_of("table").as_slice()),
        zone: string_of(zone_id.as_slice()),
        source_type: string_of(chars_of(doc.element(0).name.as_str()).as_slice()),
        resource_id: doc.resource_id(0),
        scripted: doc.bool_value(0, "isScriptSpawn"),
        entries,
        extra: doc.extra_fields(0, table_excluded.as_slice()),
        source,
    }
}

} // verus!
