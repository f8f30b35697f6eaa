//! Mob classes and mob qualities, the two taxonomy records a zone's mob
//! kinds name: each read from its document with its id and name key; a
//! class with its stat modifiers, a quality with its rank on the curated
//! ladder and the prototype it records.

use vstd::prelude::*;
use crate::mobkind::{ref_doc, ref_value, ref_view, prototype_of, resource_id_of, referrer_of};
use crate::model::{Provenance, quality_rank, quality_rank_of, resource_ref};
use crate::overlay::{Doc, DocView, entries_view};
use crate::reference::{canonical_id_of, canonical_id_from_source_path, href_id_of};
use crate::scan::{loc_key, loc_key_of};
use crate::text::{chars_of, string_of, push_str, eq_str};
use crate::xml::{XmlDoc, XmlElement, put, put_entry, child_of, named_children, text_of, href_of, extra_fields_of, str_views, opt_string};

verus! {

/// A mob class or mob quality document.
#[derive(Debug)]
pub struct TaxonomyDocument {
    pub id: String,
    /// `mobclass` or `mobquality`.
    pub kind: String,
    /// A quality's rank.
    pub rank: Option<u8>,
    pub source_type: String,
    pub resource_id: Option<u64>,
    /// The name's localization key.
    pub name: Option<String>,
    /// A class's stat modifiers as stat and decimal text, in order.
    pub stat_mods: Vec<(String, String)>,
    /// Unmapped fields, by name.
    pub extra: Vec<(String, Doc)>,
    pub source: Provenance,
}

/// Why a taxonomy document could not be read.
#[derive(Debug)]
pub enum TaxonomyError {
    NotA { relative: String, tag: String, expected: String },
    NoQuality { relative: String },
    Unranked { relative: String, quality: String },
    NoId { relative: String },
}

pub open spec fn taxonomy_error_text(e: TaxonomyError) -> Seq<char> {
    match e {
        TaxonomyError::NotA { relative, tag, expected } => relative@ + " is a "@ + tag@ + ", not a "@ + expected@,
        TaxonomyError::NoQuality { relative } => relative@ + " carries no <quality>"@,
        TaxonomyError::Unranked { relative, quality } => relative@ + " has unranked quality "@ + quality@,
        TaxonomyError::NoId { relative } => "build taxonomy ID from "@ + relative@,
    }
}

impl TaxonomyError {
    /// What the refusal says.
    pub fn message(&self) -> (r: String)
        ensures
            r@ == taxonomy_error_text(*self),
    {
        let mut out: Vec<char> = Vec::new();
        match self {
            TaxonomyError::NotA { relative, tag, expected } => {
                push_str(&mut out, relative.as_str());
                push_str(&mut out, " is a ");
                push_str(&mut out, tag.as_str());
                push_str(&mut out, ", not a ");
                push_str(&mut out, expected.as_str());
            },
            TaxonomyError::NoQuality { relative } => {
                push_str(&mut out, relative.as_str());
                push_str(&mut out, " carries no <quality>");
            },
            TaxonomyError::Unranked { relative, quality } => {
                push_str(&mut out, relative.as_str());
                push_str(&mut out, " has unranked quality ");
                push_str(&mut out, quality.as_str());
            },
            TaxonomyError::NoId { relative } => {
                push_str(&mut out, "build taxonomy ID from ");
                push_str(&mut out, relative.as_str());
            },
        }
        string_of(out.as_slice())
    }
}

fn own(s: &str) -> (out: String)
    ensures
        out@ == s@,
{
    string_of(chars_of(s).as_slice())
}

/// The name key of a taxonomy document's root.
pub open spec fn name_key_of(es: Seq<XmlElement>, src: Seq<char>, relative: Seq<char>) -> Option<Seq<char>> {
    match href_of(es, 0, "name"@) {
        Some(v) => loc_key_of(src, referrer_of(src, relative), v),
        None => None,
    }
}

/// The fields every taxonomy document has.
pub open spec fn header_read(es: Seq<XmlElement>, src: Seq<char>, relative: Seq<char>, source: Provenance,
    kind: Seq<char>, d: TaxonomyDocument) -> bool
{
    &&& d.id@ == canonical_id_of(relative)->0
    &&& d.kind@ == kind
    &&& d.source_type@ == es[0].name@
    &&& d.resource_id == resource_id_of(es)
    &&& opt_string(d.name) == name_key_of(es, src, relative)
    &&& d.source == source
}

fn name_key(doc: &XmlDoc, src: &str, relative: &str) -> (r: Option<String>)
    requires
        doc@.len() > 0,
    ensures
        opt_string(r) == name_key_of(doc@, src@, relative@),
{
    match doc.href(0, "name") {
        Some(v) => {
            let mut referrer = chars_of(src);
            push_str(&mut referrer, "/");
            push_str(&mut referrer, relative);
            loc_key(src, string_of(referrer.as_slice()).as_str(), v.as_str())
        },
        None => None,
    }
}

// ----- qualities ----------------------------------------------------------------------

pub open spec fn quality_tag() -> Seq<char> {
    "gameMechanics.world.mob.MobQuality"@
}

/// A quality's unmapped fields, with the prototype it names recorded.
pub open spec fn quality_extra(es: Seq<XmlElement>) -> Seq<(Seq<char>, DocView)> {
    let base = extra_fields_of(es, 0, seq!["Header"@, "name"@]);
    match prototype_of(es) {
        Some(h) => put(base, "prototype"@, ref_value((href_id_of(h), h))),
        None => base,
    }
}

/// What reading a quality document gives, its refusals in the order checked.
pub open spec fn quality_read(relative: Seq<char>, es: Seq<XmlElement>, src: Seq<char>, source: Provenance,
    r: Result<TaxonomyDocument, TaxonomyError>) -> bool
{
    if es[0].name@ != quality_tag() {
        r matches Err(TaxonomyError::NotA { relative: rr, tag, expected }) && rr@ == relative && tag@ == es[0].name@
            && expected@ == quality_tag()
    } else {
        match text_of(es, 0, "quality"@) {
            None => r matches Err(TaxonomyError::NoQuality { relative: rr }) && rr@ == relative,
            Some(q) => match quality_rank_of(q) {
                None => r matches Err(TaxonomyError::Unranked { relative: rr, quality }) && rr@ == relative && quality@ == q,
                Some(rank) => if canonical_id_of(relative) is None {
                    r matches Err(TaxonomyError::NoId { relative: rr }) && rr@ == relative
                } else {
                    r matches Ok(d) && header_read(es, src, relative, source, "mobquality"@, d) && d.rank == Some(rank)
                        && d.stat_mods@.len() == 0 && entries_view(d.extra@) == quality_extra(es)
                },
            },
        }
    }
}

/// Reads one mob quality document.
pub fn mob_quality_document(relative: &str, doc: &XmlDoc, src: &str, source: Provenance) -> (r: Result<TaxonomyDocument, TaxonomyError>)
    ensures
        quality_read(relative@, doc@, src@, source, r),
{
    let n = doc.len();
    let tag = doc.element(0).name.as_str();
    if !eq_str(chars_of(tag).as_slice(), "gameMechanics.world.mob.MobQuality") {
        return Err(TaxonomyError::NotA { relative: own(relative), tag: own(tag), expected: own("gameMechanics.world.mob.MobQuality") });
    }
    let quality = match doc.text(0, "quality") {
        Some(q) => q,
        None => {
            return Err(TaxonomyError::NoQuality { relative: own(relative) });
        },
    };
    let rank = match quality_rank(quality.as_str()) {
        Some(r) => r,
        None => {
            return Err(TaxonomyError::Unranked { relative: own(relative), quality });
        },
    };
    let mut excluded: Vec<&str> = Vec::new();
    excluded.push("Header");
    excluded.push("name");
    assert(str_views(excluded@) =~= seq!["Header"@, "name"@]);
    let mut extra = doc.extra_fields(0, excluded.as_slice());
    match doc.prototype_href(0) {
        Some(h) => {
            let r = resource_ref(h.as_str());
            put_entry(&mut extra, chars_of("prototype").as_slice(), ref_doc(&r));
        },
        None => {},
    }
    let id = match canonical_id_from_source_path(relative) {
        Some(id) => id,
        None => {
            return Err(TaxonomyError::NoId { relative: own(relative) });
        },
    };
    Ok(TaxonomyDocument {
        id,
        kind: own("mobquality"),
        rank: Some(rank),
        source_type: own(tag),
        resource_id: doc.resource_id(0),
        name: name_key(doc, src, relative),
        stat_mods: Vec::new(),
        extra,
        source,
    })
}

// ----- classes --------------------------------------------------------------------------

pub open spec fn class_tag() -> Seq<char> {
    "gameMechanics.world.mob.MobClass"@
}

/// The `Item` children of the root's `statMods`.
pub open spec fn stat_items(es: Seq<XmlElement>) -> Seq<int> {
    match child_of(es, 0, "statMods"@) {
        Some(p) => named_children(es, p, "Item"@, es.len() as int),
        None => Seq::empty(),
    }
}

/// The stat and modifier of each of the first `n` items that carries both.
pub open spec fn stat_pairs(es: Seq<XmlElement>, items: Seq<int>, n: int) -> Seq<(Seq<char>, Seq<char>)>
    decreases n,
{
    if n <= 0 {
        Seq::empty()
    } else {
        let before = stat_pairs(es, items, n - 1);
        match (text_of(es, items[n - 1], "stat"@), text_of(es, items[n - 1], "mod"@)) {
            (Some(s), Some(m)) => before.push((s, m)),
            _ => before,
        }
    }
}

/// What reading a class document gives, its refusals in the order checked.
pub open spec fn class_read(relative: Seq<char>, es: Seq<XmlElement>, src: Seq<char>, source: Provenance,
    r: Result<TaxonomyDocument, TaxonomyError>) -> bool
{
    if es[0].name@ != class_tag() {
        r matches Err(TaxonomyError::NotA { relative: rr, tag, expected }) && rr@ == relative && tag@ == es[0].name@
            && expected@ == class_tag()
    } else if canonical_id_of(relative) is None {
        r matches Err(TaxonomyError::NoId { relative: rr }) && rr@ == relative
    } else {
        r matches Ok(d) && header_read(es, src, relative, source, "mobclass"@, d) && d.rank is None
            && d.stat_mods@.map_values(|p: (String, String)| (p.0@, p.1@)) == stat_pairs(es, stat_items(es), stat_items(es).len() as int)
            && entries_view(d.extra@) == extra_fields_of(es, 0, seq!["Header"@, "name"@, "statMods"@])
    }
}

/// Reads one mob class document.
pub fn mob_class_document(relative: &str, doc: &XmlDoc, src: &str, source: Provenance) -> (r: Result<TaxonomyDocument, TaxonomyError>)
    ensures
        class_read(relative@, doc@, src@, source, r),
{
    let n = doc.len();
    let tag = doc.element(0).name.as_str();
    if !eq_str(chars_of(tag).as_slice(), "gameMechanics.world.mob.MobClass") {
        return Err(TaxonomyError::NotA { relative: own(relative), tag: own(tag), expected: own("gameMechanics.world.mob.MobClass") });
    }
    let items: Vec<usize> = match doc.child(0, "statMods") {
        Some(p) => doc.children(p, "Item"),
        None => Vec::new(),
    };
    let ghost iv = items@.map_values(|j: usize| j as int);
    assert(iv == stat_items(doc@)) by {
        if child_of(doc@, 0, "statMods"@) is None {
            assert(iv =~= Seq::<int>::empty());
        }
    }
    proof {
        match child_of(doc@, 0, "statMods"@) {
            Some(p) => crate::xml::lemma_named_children_bound(doc@, p, "Item"@, doc@.len() as int),
            None => {},
        }
    }
    let mut stat_mods: Vec<(String, String)> = Vec::new();
    let mut i: usize = 0;
    while i < items.len()
        invariant
            i <= items@.len(),
            iv == items@.map_values(|j: usize| j as int),
            forall|k: int| 0 <= k < iv.len() ==> 0 <= #[trigger] iv[k] < doc@.len(),
            stat_mods@.map_values(|p: (String, String)| (p.0@, p.1@)) == stat_pairs(doc@, iv, i as int),
        decreases items@.len() - i,
    {
        assert(iv[i as int] == items@[i as int] as int);
        let ghost before = stat_mods@.map_values(|p: (String, String)| (p.0@, p.1@));
        match (doc.text(items[i], "stat"), doc.text(items[i], "mod")) {
            (Some(s), Some(m)) => {
                let ghost pv = (s@, m@);
                stat_mods.push((s, m));
                assert(stat_mods@.map_values(|p: (String, String)| (p.0@, p.1@)) =~= before.push(pv));
            },
            _ => {},
        }
        i = i + 1;
    }
    let id = match canonical_id_from_source_path(relative) {
        Some(id) => id,
        None => {
            return Err(TaxonomyError::NoId { relative: own(relative) });
        },
    };
    let mut excluded: Vec<&str> = Vec::new();
    excluded.push("Header");
    excluded.push("name");
    excluded.push("statMods");
    assert(str_views(excluded@) =~= seq!["Header"@, "name"@, "statMods"@]);
    Ok(TaxonomyDocument {
        id,
        kind: own("mobclass"),
        rank: None,
        source_type: own(tag),
        resource_id: doc.resource_id(0),
        name: name_key(doc, src, relative),
        stat_mods,
        extra: doc.extra_fields(0, excluded.as_slice()),
        source,
    })
}

} // verus!
