//! Mob kinds through their prototype chains: what a kind says itself, and
//! what it inherits from the prototype it names. A kind's own value wins;
//! what it leaves unsaid comes from the prototype; its loot tables replace
//! the prototype's only when it lists any. Modifier values are decimal
//! text here, each one that reads as a number; reading them is left to
//! where the document is written.

use vstd::prelude::*;
use crate::model::{LocRefs, Provenance, ResourceRef, resource_ref};
use crate::overlay::{Doc, DocView, doc_view, entries_view, list_view, copy_doc};
use crate::reference::opt_text;
use crate::text::{chars_of, string_of, seq_eq, eq_str, push_str, concat, join, join_vec, views_of};
use crate::scan::{resolve_href, resolve_of};
use crate::reference::{canonical_id_of, canonical_id_from_source_path};
use vstd::set_lib::{set_int_range, lemma_int_range, lemma_len_subset};
use crate::xml::{XmlDoc, put, put_entry, opt_string, href_of, text_of, attr_of, child_of, named_children, extra_fields_of, str_views};
use crate::scan::{loc_key, loc_key_of};
use crate::reference::href_id_of;

verus! {

/// What a mob kind document says itself.
#[derive(Debug)]
pub struct OwnKindFields {
    pub name: Option<String>,
    pub mob_class: Option<ResourceRef>,
    pub quality: Option<ResourceRef>,
    pub hp_mod: Option<String>,
    pub dps_mod: Option<String>,
    pub exp_mod: Option<String>,
    pub mana_mod: Option<String>,
    pub loot_mod: Option<String>,
    pub speed: Option<String>,
    pub loot_tables: Vec<ResourceRef>,
    /// Unmapped fields, by name.
    pub extra: Vec<(String, Doc)>,
}

/// One mob kind, with everything its prototypes supplied.
#[derive(Debug)]
pub struct MobKindDocument {
    pub schema_version: u8,
    pub id: String,
    pub kind: String,
    pub source_type: String,
    pub resource_id: Option<u64>,
    pub loc_ref: LocRefs,
    pub prototype: Option<ResourceRef>,
    pub mob_class: Option<ResourceRef>,
    pub quality: Option<ResourceRef>,
    pub hp_mod: Option<String>,
    pub dps_mod: Option<String>,
    pub exp_mod: Option<String>,
    pub mana_mod: Option<String>,
    pub loot_mod: Option<String>,
    pub speed: Option<String>,
    pub extra: Vec<(String, Doc)>,
    pub source: Provenance,
}

/// A mob kind with its prototype chain resolved.
#[derive(Debug)]
pub struct ResolvedKind {
    pub id: String,
    pub document: MobKindDocument,
    /// The kind ids from the chain's root down to this kind.
    pub chain: Vec<String>,
    pub loot_tables: Vec<ResourceRef>,
}

pub open spec fn ref_view(r: ResourceRef) -> (Option<Seq<char>>, Seq<char>) {
    (opt_text(r.id), r.href@)
}

pub open spec fn opt_ref_view(r: Option<ResourceRef>) -> Option<(Option<Seq<char>>, Seq<char>)> {
    match r {
        Some(x) => Some(ref_view(x)),
        None => None,
    }
}

pub open spec fn ref_views(v: Seq<ResourceRef>) -> Seq<(Option<Seq<char>>, Seq<char>)> {
    v.map_values(|r: ResourceRef| ref_view(r))
}

pub open spec fn text_views(v: Seq<String>) -> Seq<Seq<char>> {
    v.map_values(|s: String| s@)
}

pub open spec fn or_inherited<T>(own: Option<T>, inherited: Option<T>) -> Option<T> {
    match own {
        Some(x) => Some(x),
        None => inherited,
    }
}

/// The note every mob kind carries: the per-level curve the modifiers
/// multiply is not in the source data.
pub open spec fn level_curve_gap() -> Seq<char> {
    "the per-level base HP/DPS curve these modifiers multiply is absent from the source data tree; it is a curated SarnautCore overlay constant (docs/specs/mechanics/combat.md 7.1)"@
}

/// `m` with each of `es` set in turn.
pub open spec fn put_all(m: Seq<(Seq<char>, DocView)>, es: Seq<(Seq<char>, DocView)>) -> Seq<(Seq<char>, DocView)>
    decreases es.len(),
{
    if es.len() == 0 { m } else { put(put_all(m, es.drop_last()), es.last().0, es.last().1) }
}

/// A loot table reference as a value: its `href`, and its `id` when minted.
pub open spec fn ref_value(r: (Option<Seq<char>>, Seq<char>)) -> DocView {
    match r.0 {
        Some(id) => DocView::Mapping(seq![("href"@, DocView::Text(r.1)), ("id"@, DocView::Text(id))]),
        None => DocView::Mapping(seq![("href"@, DocView::Text(r.1))]),
    }
}

/// The unmapped fields a resolved kind carries: the prototype's, overridden
/// by its own, then the level-curve note, then its loot tables when it has
/// any.
pub open spec fn kind_extra(inherited: Seq<(Seq<char>, DocView)>, own: Seq<(Seq<char>, DocView)>,
    loot: Seq<(Option<Seq<char>>, Seq<char>)>) -> Seq<(Seq<char>, DocView)>
{
    let m = put(put_all(inherited, own), "level_curve_gap"@, DocView::Text(level_curve_gap()));
    if loot.len() > 0 { put(m, "loot_tables"@, DocView::List(loot.map_values(|r: (Option<Seq<char>>, Seq<char>)| ref_value(r)))) } else { m }
}

/// What resolving a kind gives, from its prototype's resolution (none for a
/// root kind) and its own fields.
pub open spec fn inherits(parent: Option<ResolvedKind>, own: OwnKindFields, id: Seq<char>, source_type: Seq<char>,
    resource_id: Option<u64>, prototype: Option<Seq<char>>, source: Provenance, r: ResolvedKind) -> bool
{
    let pd = match parent { Some(p) => Some(p.document), None => None::<MobKindDocument> };
    let chain = match parent { Some(p) => text_views(p.chain@).push(id), None => seq![id] };
    let loot = if own.loot_tables@.len() > 0 {
        ref_views(own.loot_tables@)
    } else {
        match parent { Some(p) => ref_views(p.loot_tables@), None => Seq::empty() }
    };
    let inherited_extra = match pd { Some(d) => entries_view(d.extra@), None => Seq::empty() };
    let d = r.document;
    &&& r.id@ == id
    &&& text_views(r.chain@) == chain
    &&& ref_views(r.loot_tables@) == loot
    &&& d.schema_version == 1
    &&& d.id@ == id
    &&& d.kind@ == "mobkind"@
    &&& d.source_type@ == source_type
    &&& d.resource_id == resource_id
    &&& opt_string(d.loc_ref.name) == or_inherited(opt_string(own.name), match pd { Some(p) => opt_string(p.loc_ref.name), None => None })
    &&& d.loc_ref.description is None && d.loc_ref.bind_description is None && d.loc_ref.goal is None
    &&& d.loc_ref.start is None && d.loc_ref.check is None && d.loc_ref.finish is None && d.loc_ref.title is None
    &&& match prototype {
        Some(h) => d.prototype matches Some(x) && opt_text(x.id) == crate::reference::href_id_of(h) && x.href@ == h,
        None => d.prototype is None,
    }
    &&& opt_ref_view(d.mob_class) == or_inherited(opt_ref_view(own.mob_class), match pd { Some(p) => opt_ref_view(p.mob_class), None => None })
    &&& opt_ref_view(d.quality) == or_inherited(opt_ref_view(own.quality), match pd { Some(p) => opt_ref_view(p.quality), None => None })
    &&& opt_string(d.hp_mod) == or_inherited(opt_string(own.hp_mod), match pd { Some(p) => opt_string(p.hp_mod), None => None })
    &&& opt_string(d.dps_mod) == or_inherited(opt_string(own.dps_mod), match pd { Some(p) => opt_string(p.dps_mod), None => None })
    &&& opt_string(d.exp_mod) == or_inherited(opt_string(own.exp_mod), match pd { Some(p) => opt_string(p.exp_mod), None => None })
    &&& opt_string(d.mana_mod) == or_inherited(opt_string(own.mana_mod), match pd { Some(p) => opt_string(p.mana_mod), None => None })
    &&& opt_string(d.loot_mod) == or_inherited(opt_string(own.loot_mod), match pd { Some(p) => opt_string(p.loot_mod), None => None })
    &&& opt_string(d.speed) == or_inherited(opt_string(own.speed), match pd { Some(p) => opt_string(p.speed), None => None })
    &&& entries_view(d.extra@) == kind_extra(inherited_extra, entries_view(own.extra@), loot)
    &&& d.source.path@ == source.path@ && d.source.blake3@ == source.blake3@ && d.source.extractor@ == source.extractor@
    &&& opt_string(d.source.source_root) == opt_string(source.source_root)
    &&& d.source.prototype_chain matches Some(c) && text_views(c@) == chain
}

fn copy_text(s: &String) -> (out: String)
    ensures
        out@ == s@,
{
    string_of(chars_of(s.as_str()).as_slice())
}

fn copy_opt(o: &Option<String>) -> (out: Option<String>)
    ensures
        opt_string(out) == opt_string(*o),
{
    match o {
        Some(s) => Some(copy_text(s)),
        None => None,
    }
}

fn copy_ref(r: &ResourceRef) -> (out: ResourceRef)
    ensures
        ref_view(out) == ref_view(*r),
{
    ResourceRef { id: copy_opt(&r.id), href: copy_text(&r.href) }
}

fn copy_opt_ref(r: &Option<ResourceRef>) -> (out: Option<ResourceRef>)
    ensures
        opt_ref_view(out) == opt_ref_view(*r),
{
    match r {
        Some(x) => Some(copy_ref(x)),
        None => None,
    }
}

fn copy_refs(v: &Vec<ResourceRef>) -> (out: Vec<ResourceRef>)
    ensures
        ref_views(out@) == ref_views(v@),
{
    let mut out: Vec<ResourceRef> = Vec::new();
    let mut i: usize = 0;
    while i < v.len()
        invariant
            i <= v@.len(),
            ref_views(out@) == ref_views(v@.take(i as int)),
        decreases v@.len() - i,
    {
        let ghost before = ref_views(out@);
        out.push(copy_ref(&v[i]));
        assert(ref_views(out@) =~= before.push(ref_view(v@[i as int])));
        assert(ref_views(v@.take(i + 1)) =~= ref_views(v@.take(i as int)).push(ref_view(v@[i as int])));
        i = i + 1;
    }
    assert(v@.take(v@.len() as int) =~= v@);
    out
}

fn copy_texts(v: &Vec<String>) -> (out: Vec<String>)
    ensures
        text_views(out@) == text_views(v@),
{
    let mut out: Vec<String> = Vec::new();
    let mut i: usize = 0;
    while i < v.len()
        invariant
            i <= v@.len(),
            text_views(out@) == text_views(v@.take(i as int)),
        decreases v@.len() - i,
    {
        let ghost before = text_views(out@);
        out.push(copy_text(&v[i]));
        assert(text_views(out@) =~= before.push(v@[i as int]@));
        assert(text_views(v@.take(i + 1)) =~= text_views(v@.take(i as int)).push(v@[i as int]@));
        i = i + 1;
    }
    assert(v@.take(v@.len() as int) =~= v@);
    out
}

fn copy_entries(v: &Vec<(String, Doc)>) -> (out: Vec<(String, Doc)>)
    ensures
        entries_view(out@) == entries_view(v@),
{
    let mut out: Vec<(String, Doc)> = Vec::new();
    let mut i: usize = 0;
    while i < v.len()
        invariant
            i <= v@.len(),
            entries_view(out@) == entries_view(v@.take(i as int)),
        decreases v@.len() - i,
    {
        let ghost before = entries_view(out@);
        out.push((copy_text(&v[i].0), copy_doc(&v[i].1, false)));
        assert(entries_view(out@) =~= before.push((v@[i as int].0@, doc_view(v@[i as int].1))));
        assert(entries_view(v@.take(i + 1)) =~= entries_view(v@.take(i as int)).push((v@[i as int].0@, doc_view(v@[i as int].1))));
        i = i + 1;
    }
    assert(v@.take(v@.len() as int) =~= v@);
    out
}

fn text_doc(s: &str) -> (d: Doc)
    ensures
        doc_view(d) == DocView::Text(s@),
{
    Doc::Text(string_of(chars_of(s).as_slice()))
}

pub(crate) fn ref_doc(x: &ResourceRef) -> (d: Doc)
    ensures
        doc_view(d) == ref_value(ref_view(*x)),
{
    let ghost r = ref_view(*x);
    let mut m: Vec<(String, Doc)> = Vec::new();
    m.push((string_of(chars_of("href").as_slice()), Doc::Text(copy_text(&x.href))));
    match &x.id {
        Some(id) => {
            m.push((string_of(chars_of("id").as_slice()), Doc::Text(copy_text(id))));
            assert(entries_view(m@) =~= seq![("href"@, DocView::Text(r.1)), ("id"@, DocView::Text(r.0->0))]);
        },
        None => {
            assert(entries_view(m@) =~= seq![("href"@, DocView::Text(r.1))]);
        },
    }
    Doc::Mapping(m)
}

fn loot_doc(v: &Vec<ResourceRef>) -> (d: Doc)
    ensures
        doc_view(d) == DocView::List(ref_views(v@).map_values(|r: (Option<Seq<char>>, Seq<char>)| ref_value(r))),
{
    let ghost target = ref_views(v@).map_values(|r: (Option<Seq<char>>, Seq<char>)| ref_value(r));
    let mut out: Vec<Doc> = Vec::new();
    let mut i: usize = 0;
    while i < v.len()
        invariant
            i <= v@.len(),
            target == ref_views(v@).map_values(|r: (Option<Seq<char>>, Seq<char>)| ref_value(r)),
            list_view(out@) == target.take(i as int),
        decreases v@.len() - i,
    {
        let ghost before = list_view(out@);
        let ghost rv = ref_view(v@[i as int]);
        out.push(ref_doc(&v[i]));
        assert(list_view(out@) =~= before.push(ref_value(rv)));
        assert(target.take(i + 1) =~= target.take(i as int).push(target[i as int]));
        i = i + 1;
    }
    assert(target.take(v@.len() as int) =~= target);
    Doc::List(out)
}

fn put_each(m: &mut Vec<(String, Doc)>, es: Vec<(String, Doc)>)
    ensures
        entries_view(final(m)@) == put_all(entries_view(old(m)@), entries_view(es@)),
{
    let ghost ev = entries_view(es@);
    let ghost m0 = entries_view(m@);
    let mut rest = es;
    let ghost mut i: int = 0;
    assert(ev.take(0) =~= Seq::<(Seq<char>, DocView)>::empty());
    assert(entries_view(rest@) =~= ev.skip(0));
    while rest.len() > 0
        invariant
            0 <= i <= ev.len(),
            entries_view(rest@) == ev.skip(i),
            entries_view(m@) == put_all(m0, ev.take(i)),
        decreases rest@.len(),
    {
        let ghost r0 = rest@;
        assert(entries_view(r0).len() == r0.len());
        assert(entries_view(r0)[0] == (r0[0].0@, doc_view(r0[0].1)));
        let (k, v) = rest.remove(0);
        assert(rest@ =~= r0.drop_first());
        assert(entries_view(rest@) =~= entries_view(r0).drop_first());
        assert(ev.skip(i)[0] == (k@, doc_view(v)));
        assert(ev.take(i + 1).drop_last() =~= ev.take(i));
        put_entry(m, chars_of(k.as_str()).as_slice(), v);
        proof {
            assert(entries_view(rest@) =~= ev.skip(i + 1));
            i = i + 1;
        }
    }
    assert(ev.take(i) =~= ev);
}

/// Resolves one mob kind from its prototype's resolution (`None` for a kind
/// without a prototype) and its own fields.
pub fn inherit_kind(parent: Option<&ResolvedKind>, own: OwnKindFields, id: &str, source_type: &str,
    resource_id: Option<u64>, prototype: Option<&str>, source: Provenance) -> (r: ResolvedKind)
    ensures
        inherits(match parent { Some(p) => Some(*p), None => None }, own, id@, source_type@, resource_id,
            match prototype { Some(h) => Some(h@), None => None }, source, r),
{
    let ghost own0 = own;
    let mut chain: Vec<String> = match parent {
        Some(p) => copy_texts(&p.chain),
        None => Vec::new(),
    };
    let ghost c0 = text_views(chain@);
    chain.push(string_of(chars_of(id).as_slice()));
    assert(text_views(chain@) =~= c0.push(id@));
    assert(text_views(chain@) == match parent { Some(p) => text_views(p.chain@).push(id@), None => seq![id@] });
    let loot_tables: Vec<ResourceRef> = if own.loot_tables.len() > 0 {
        copy_refs(&own.loot_tables)
    } else {
        match parent {
            Some(p) => copy_refs(&p.loot_tables),
            None => Vec::new(),
        }
    };
    assert(ref_views(loot_tables@) == if own.loot_tables@.len() > 0 {
        ref_views(own.loot_tables@)
    } else {
        match parent { Some(p) => ref_views(p.loot_tables@), None => Seq::empty() }
    });
    let mut extra: Vec<(String, Doc)> = match parent {
        Some(p) => copy_entries(&p.document.extra),
        None => Vec::new(),
    };
    assert(entries_view(extra@) == match parent { Some(p) => entries_view(p.document.extra@), None => Seq::<(Seq<char>, DocView)>::empty() });
    put_each(&mut extra, own.extra);
    put_entry(&mut extra, chars_of("level_curve_gap").as_slice(), text_doc("the per-level base HP/DPS curve these modifiers multiply is absent from the source data tree; it is a curated SarnautCore overlay constant (docs/specs/mechanics/combat.md 7.1)"));
    if loot_tables.len() > 0 {
        put_entry(&mut extra, chars_of("loot_tables").as_slice(), loot_doc(&loot_tables));
    }
    let inherited: Option<&MobKindDocument> = match parent {
        Some(p) => Some(&p.document),
        None => None,
    };
    let name = match &own.name {
        Some(n) => Some(copy_text(n)),
        None => match inherited { Some(d) => copy_opt(&d.loc_ref.name), None => None },
    };
    let mob_class = match &own.mob_class {
        Some(x) => Some(copy_ref(x)),
        None => match inherited { Some(d) => copy_opt_ref(&d.mob_class), None => None },
    };
    let quality = match &own.quality {
        Some(x) => Some(copy_ref(x)),
        None => match inherited { Some(d) => copy_opt_ref(&d.quality), None => None },
    };
    let hp_mod = match &own.hp_mod { Some(x) => Some(copy_text(x)), None => match inherited { Some(d) => copy_opt(&d.hp_mod), None => None } };
    let dps_mod = match &own.dps_mod { Some(x) => Some(copy_text(x)), None => match inherited { Some(d) => copy_opt(&d.dps_mod), None => None } };
    let exp_mod = match &own.exp_mod { Some(x) => Some(copy_text(x)), None => match inherited { Some(d) => copy_opt(&d.exp_mod), None => None } };
    let mana_mod = match &own.mana_mod { Some(x) => Some(copy_text(x)), None => match inherited { Some(d) => copy_opt(&d.mana_mod), None => None } };
    let loot_mod = match &own.loot_mod { Some(x) => Some(copy_text(x)), None => match inherited { Some(d) => copy_opt(&d.loot_mod), None => None } };
    let speed = match &own.speed { Some(x) => Some(copy_text(x)), None => match inherited { Some(d) => copy_opt(&d.speed), None => None } };
    let proto = match prototype {
        Some(h) => Some(resource_ref(h)),
        None => None,
    };
    let prototype_chain = copy_texts(&chain);
    proof { reveal_strlit("the per-level base HP/DPS curve these modifiers multiply is absent from the source data tree; it is a curated SarnautCore overlay constant (docs/specs/mechanics/combat.md 7.1)"); }
    let document = MobKindDocument {
        schema_version: 1,
        id: string_of(chars_of(id).as_slice()),
        kind: string_of(chars_of("mobkind").as_slice()),
        source_type: string_of(chars_of(source_type).as_slice()),
        resource_id,
        loc_ref: LocRefs {
            name,
            description: None,
            bind_description: None,
            goal: None,
            start: None,
            check: None,
            finish: None,
            title: None,
        },
        prototype: proto,
        mob_class,
        quality,
        hp_mod,
        dps_mod,
        exp_mod,
        mana_mod,
        loot_mod,
        speed,
        extra,
        source: Provenance {
            path: source.path,
            blake3: source.blake3,
            extractor: source.extractor,
            source_root: source.source_root,
            prototype_chain: Some(prototype_chain),
        },
    };
    ResolvedKind {
        id: string_of(chars_of(id).as_slice()),
        document,
        chain,
        loot_tables,
    }
}

// ----- what a kind says itself ----------------------------------------------------------

/// The fields a mob kind maps, which are therefore not kept as extra.
pub open spec fn kind_mapped() -> Seq<Seq<char>> {
    seq!["Header"@, "name"@, "mobClass"@, "quality"@, "hpMod"@, "dpsMod"@, "expMod"@, "manaMod"@, "lootMod"@,
        "speed"@, "lootTable"@]
}

/// A reference read from an href.
pub open spec fn href_ref(h: Option<Seq<char>>) -> Option<(Option<Seq<char>>, Seq<char>)> {
    match h {
        Some(v) => Some((href_id_of(v), v)),
        None => None,
    }
}

/// The non-empty `href`s of the first `upto` of `items`, as references.
pub open spec fn item_refs(es: Seq<crate::xml::XmlElement>, items: Seq<int>, upto: int) -> Seq<(Option<Seq<char>>, Seq<char>)>
    decreases upto,
{
    if upto <= 0 {
        Seq::empty()
    } else {
        let rest = item_refs(es, items, upto - 1);
        match attr_of(es[items[upto - 1]].attributes@, "href"@) {
            Some(h) => if h.len() > 0 { rest.push((href_id_of(h), h)) } else { rest },
            None => rest,
        }
    }
}

/// What the root element of a mob kind document says itself, with its
/// localization key resolved against the source root and the document.
pub open spec fn own_fields_of(es: Seq<crate::xml::XmlElement>, src: Seq<char>, referrer: Seq<char>, o: OwnKindFields) -> bool {
    &&& opt_string(o.name) == match href_of(es, 0, "name"@) { Some(h) => loc_key_of(src, referrer, h), None => None }
    &&& opt_ref_view(o.mob_class) == href_ref(href_of(es, 0, "mobClass"@))
    &&& opt_ref_view(o.quality) == href_ref(href_of(es, 0, "quality"@))
    &&& opt_string(o.hp_mod) == text_of(es, 0, "hpMod"@)
    &&& opt_string(o.dps_mod) == text_of(es, 0, "dpsMod"@)
    &&& opt_string(o.exp_mod) == text_of(es, 0, "expMod"@)
    &&& opt_string(o.mana_mod) == text_of(es, 0, "manaMod"@)
    &&& opt_string(o.loot_mod) == text_of(es, 0, "lootMod"@)
    &&& opt_string(o.speed) == text_of(es, 0, "speed"@)
    &&& ref_views(o.loot_tables@) == match child_of(es, 0, "lootTable"@) {
        Some(l) => item_refs(es, named_children(es, l, "Item"@, es.len() as int),
            named_children(es, l, "Item"@, es.len() as int).len() as int),
        None => Seq::empty(),
    }
    &&& entries_view(o.extra@) == extra_fields_of(es, 0, kind_mapped())
}

fn ref_of_href(h: Option<String>) -> (r: Option<ResourceRef>)
    ensures
        opt_ref_view(r) == href_ref(opt_string(h)),
{
    match h {
        Some(v) => Some(resource_ref(v.as_str())),
        None => None,
    }
}

fn loot_refs(doc: &XmlDoc) -> (out: Vec<ResourceRef>)
    ensures
        ref_views(out@) == match child_of(doc@, 0, "lootTable"@) {
            Some(l) => item_refs(doc@, named_children(doc@, l, "Item"@, doc@.len() as int),
                named_children(doc@, l, "Item"@, doc@.len() as int).len() as int),
            None => Seq::empty(),
        },
{
    let mut out: Vec<ResourceRef> = Vec::new();
    assert(ref_views(out@) =~= Seq::<(Option<Seq<char>>, Seq<char>)>::empty());
    let l = match doc.child(0, "lootTable") {
        Some(l) => l,
        None => return out,
    };
    let items = doc.children(l, "Item");
    let ghost iv = items@.map_values(|j: usize| j as int);
    proof { crate::xml::lemma_named_children_bound(doc@, l as int, "Item"@, doc@.len() as int); }
    let mut i: usize = 0;
    while i < items.len()
        invariant
            i <= items@.len(),
            iv == items@.map_values(|j: usize| j as int),
            iv == named_children(doc@, l as int, "Item"@, doc@.len() as int),
            forall|x: int| 0 <= x < iv.len() ==> 0 <= #[trigger] iv[x] < doc@.len(),
            ref_views(out@) == item_refs(doc@, iv, i as int),
        decreases items@.len() - i,
    {
        assert(iv[i as int] == items@[i as int] as int);
        let ghost before = ref_views(out@);
        match doc.attribute(items[i], "href") {
            Some(h) => if h.unicode_len() > 0 {
                let r = resource_ref(h.as_str());
                out.push(r);
                assert(ref_views(out@) =~= before.push((href_id_of(h@), h@)));
            },
            None => {},
        }
        i = i + 1;
    }
    out
}

fn kind_excluded() -> (out: Vec<&'static str>)
    ensures
        str_views(out@) == kind_mapped(),
{
    let mut v: Vec<&'static str> = Vec::new();
    v.push("Header");
    v.push("name");
    v.push("mobClass");
    v.push("quality");
    v.push("hpMod");
    v.push("dpsMod");
    v.push("expMod");
    v.push("manaMod");
    v.push("lootMod");
    v.push("speed");
    v.push("lootTable");
    assert(str_views(v@) =~= kind_mapped());
    v
}

/// What a mob kind document's root element says itself.
pub fn own_kind_fields(doc: &XmlDoc, src: &str, referrer: &str) -> (o: OwnKindFields)
    ensures
        own_fields_of(doc@, src@, referrer@, o),
{
    let name = match doc.href(0, "name") {
        Some(h) => loc_key(src, referrer, h.as_str()),
        None => None,
    };
    let excluded = kind_excluded();
    let n = doc.len();
    assert(n > 0);
    OwnKindFields {
        name,
        mob_class: ref_of_href(doc.href(0, "mobClass")),
        quality: ref_of_href(doc.href(0, "quality")),
        hp_mod: doc.text(0, "hpMod"),
        dps_mod: doc.text(0, "dpsMod"),
        exp_mod: doc.text(0, "expMod"),
        mana_mod: doc.text(0, "manaMod"),
        loot_mod: doc.text(0, "lootMod"),
        speed: doc.text(0, "speed"),
        loot_tables: loot_refs(doc),
        extra: doc.extra_fields(0, excluded.as_slice()),
    }
}


// ----- prototype chains -----------------------------------------------------------------

/// The root element of every mob kind document.
pub open spec fn mob_kind_tag() -> Seq<char> {
    "gameMechanics.world.mob.MobKind"@
}

/// A mob kind source document as read from the tree.
#[derive(Debug)]
pub struct KindSource {
    /// Its path below the source root.
    pub relative: String,
    pub doc: XmlDoc,
    /// Where it was read from.
    pub source: Provenance,
}

/// Why a mob kind could not be resolved.
#[derive(Debug)]
pub enum KindError {
    /// No document at this path below the source root.
    Missing { relative: String },
    /// The document at this path is something other than a mob kind.
    NotAKind { relative: String, tag: String },
    /// The path mints no canonical id.
    NoId { relative: String },
    /// A prototype href that leads to no path below the source root.
    UnresolvedPrototype { relative: String, href: String },
    /// A prototype chain that comes back to a kind it passed: the paths
    /// from the first, the repeated one last.
    Cycle { chain: Vec<String> },
}

/// A refusal as plain values.
pub enum KindFailure {
    Missing(Seq<char>),
    NotAKind(Seq<char>, Seq<char>),
    NoId(Seq<char>),
    UnresolvedPrototype(Seq<char>, Seq<char>),
    Cycle(Seq<Seq<char>>),
}

pub open spec fn failure_of(e: KindError) -> KindFailure {
    match e {
        KindError::Missing { relative } => KindFailure::Missing(relative@),
        KindError::NotAKind { relative, tag } => KindFailure::NotAKind(relative@, tag@),
        KindError::NoId { relative } => KindFailure::NoId(relative@),
        KindError::UnresolvedPrototype { relative, href } => KindFailure::UnresolvedPrototype(relative@, href@),
        KindError::Cycle { chain } => KindFailure::Cycle(text_views(chain@)),
    }
}

/// What a refusal says.
pub open spec fn kind_failure_text(f: KindFailure) -> Seq<char> {
    match f {
        KindFailure::Missing(r) => "mob kind "@ + r + " does not exist below the source root"@,
        KindFailure::NotAKind(r, t) => r + " is a "@ + t + ", not a gameMechanics.world.mob.MobKind"@,
        KindFailure::NoId(r) => "build mob kind ID from "@ + r + ": the path mints no canonical id"@,
        KindFailure::UnresolvedPrototype(r, h) => "resolve prototype "@ + h + " referenced by "@ + r
            + ": it leads to no path below the source root"@,
        KindFailure::Cycle(c) => "prototype cycle: "@ + join(c, " -> "@),
    }
}

fn chain_parts(chain: &Vec<String>) -> (out: Vec<Vec<char>>)
    ensures
        views_of(out@) == text_views(chain@),
{
    let mut out: Vec<Vec<char>> = Vec::new();
    let mut i: usize = 0;
    while i < chain.len()
        invariant
            i <= chain@.len(),
            views_of(out@) == text_views(chain@.take(i as int)),
        decreases chain@.len() - i,
    {
        out.push(chars_of(chain[i].as_str()));
        assert(text_views(chain@.take(i + 1)) =~= text_views(chain@.take(i as int)).push(chain@[i as int]@));
        assert(views_of(out@) =~= text_views(chain@.take(i + 1)));
        i = i + 1;
    }
    assert(chain@.take(i as int) =~= chain@);
    out
}

impl KindError {
    /// What the refusal says.
    pub fn message(&self) -> (r: String)
        ensures
            r@ == kind_failure_text(failure_of(*self)),
    {
        let mut out: Vec<char> = Vec::new();
        match self {
            KindError::Missing { relative } => {
                push_str(&mut out, "mob kind ");
                push_str(&mut out, relative.as_str());
                push_str(&mut out, " does not exist below the source root");
            },
            KindError::NotAKind { relative, tag } => {
                push_str(&mut out, relative.as_str());
                push_str(&mut out, " is a ");
                push_str(&mut out, tag.as_str());
                push_str(&mut out, ", not a gameMechanics.world.mob.MobKind");
            },
            KindError::NoId { relative } => {
                push_str(&mut out, "build mob kind ID from ");
                push_str(&mut out, relative.as_str());
                push_str(&mut out, ": the path mints no canonical id");
            },
            KindError::UnresolvedPrototype { relative, href } => {
                push_str(&mut out, "resolve prototype ");
                push_str(&mut out, href.as_str());
                push_str(&mut out, " referenced by ");
                push_str(&mut out, relative.as_str());
                push_str(&mut out, ": it leads to no path below the source root");
            },
            KindError::Cycle { chain } => {
                push_str(&mut out, "prototype cycle: ");
                let parts = chain_parts(chain);
                let sep = chars_of(" -> ");
                let joined = join_vec(&parts, sep.as_slice());
                out = concat(out.as_slice(), joined.as_slice());
            },
        }
        assert(out@ =~= kind_failure_text(failure_of(*self)));
        string_of(out.as_slice())
    }
}

/// `ks[i]` is the first kind read from `rel`.
pub open spec fn kind_at(ks: Seq<KindSource>, rel: Seq<char>, i: int) -> bool {
    &&& 0 <= i < ks.len()
    &&& ks[i].relative@ == rel
    &&& forall|j: int| 0 <= j < i ==> (#[trigger] ks[j]).relative@ != rel
}

/// Where the kind read from `rel` stands, if one was.
pub open spec fn kind_index(ks: Seq<KindSource>, rel: Seq<char>) -> Option<int> {
    if exists|i: int| kind_at(ks, rel, i) {
        Some(choose|i: int| kind_at(ks, rel, i))
    } else {
        None
    }
}

proof fn lemma_kind_index(ks: Seq<KindSource>, rel: Seq<char>)
    ensures
        kind_index(ks, rel) matches Some(i) ==> kind_at(ks, rel, i),
        kind_index(ks, rel) is None ==> forall|j: int| 0 <= j < ks.len() ==> (#[trigger] ks[j]).relative@ != rel,
{
    if kind_index(ks, rel) is None {
        assert forall|j: int| 0 <= j < ks.len() implies (#[trigger] ks[j]).relative@ != rel by {
            if ks[j].relative@ == rel {
                lemma_first_at(ks, rel, j);
            }
        }
    }
}

proof fn lemma_first_at(ks: Seq<KindSource>, rel: Seq<char>, j: int)
    requires
        0 <= j < ks.len(),
        ks[j].relative@ == rel,
    ensures
        exists|i: int| kind_at(ks, rel, i),
    decreases j,
{
    if kind_at(ks, rel, j) {
    } else {
        let w = choose|w: int| 0 <= w < j && (#[trigger] ks[w]).relative@ == rel;
        lemma_first_at(ks, rel, w);
    }
}

fn find_kind(kinds: &Vec<KindSource>, rel: &str) -> (r: Option<usize>)
    ensures
        match r {
            Some(i) => kind_index(kinds@, rel@) == Some(i as int),
            None => kind_index(kinds@, rel@) is None,
        },
{
    let target = chars_of(rel);
    let mut i: usize = 0;
    while i < kinds.len()
        invariant
            i <= kinds@.len(),
            target@ == rel@,
            forall|j: int| 0 <= j < i ==> (#[trigger] kinds@[j]).relative@ != rel@,
        decreases kinds@.len() - i,
    {
        let here = chars_of(kinds[i].relative.as_str());
        if seq_eq(here.as_slice(), target.as_slice()) {
            proof {
                assert(kind_at(kinds@, rel@, i as int));
                let c = choose|k: int| kind_at(kinds@, rel@, k);
                if c < i {
                    assert(kinds@[c].relative@ != rel@);
                }
                if c > i {
                    assert(kinds@[i as int].relative@ != rel@);
                }
            }
            return Some(i);
        }
        i = i + 1;
    }
    proof {
        if exists|k: int| kind_at(kinds@, rel@, k) {
            let c = choose|k: int| kind_at(kinds@, rel@, k);
            assert(kinds@[c].relative@ != rel@);
        }
    }
    None
}

/// Distinct paths that each name a kind are no more than the kinds.
proof fn lemma_found_paths_bound(ks: Seq<KindSource>, vis: Seq<Seq<char>>)
    requires
        vis.no_duplicates(),
        forall|j: int| 0 <= j < vis.len() ==> (#[trigger] kind_index(ks, vis[j])) is Some,
    ensures
        vis.len() <= ks.len(),
{
    let idx = vis.map_values(|e: Seq<char>| kind_index(ks, e)->0);
    assert forall|a: int, b: int| 0 <= a < idx.len() && 0 <= b < idx.len() && a != b implies idx[a] != idx[b] by {
        lemma_kind_index(ks, vis[a]);
        lemma_kind_index(ks, vis[b]);
        assert(kind_index(ks, vis[a]) is Some);
        assert(kind_index(ks, vis[b]) is Some);
    }
    assert(idx.no_duplicates());
    idx.unique_seq_to_set();
    assert forall|x: int| idx.to_set().contains(x) implies set_int_range(0, ks.len() as int).contains(x) by {
        let a = choose|a: int| 0 <= a < idx.len() && idx[a] == x;
        lemma_kind_index(ks, vis[a]);
        assert(kind_index(ks, vis[a]) is Some);
    }
    lemma_int_range(0, ks.len() as int);
    lemma_len_subset(idx.to_set(), set_int_range(0, ks.len() as int));
}

/// The path a kind at `rel` is read from, the referrer its hrefs resolve against.
pub open spec fn referrer_of(src: Seq<char>, rel: Seq<char>) -> Seq<char> {
    src + "/"@ + rel
}

fn referrer_path(src: &str, rel: &str) -> (out: String)
    ensures
        out@ == referrer_of(src@, rel@),
{
    let mut v: Vec<char> = chars_of(src);
    push_str(&mut v, "/");
    push_str(&mut v, rel);
    string_of(v.as_slice())
}

/// The `Header/Prototype` href of a document's root.
pub open spec fn prototype_of(es: Seq<crate::xml::XmlElement>) -> Option<Seq<char>> {
    match child_of(es, 0, "Header"@) {
        Some(h) => href_of(es, h, "Prototype"@),
        None => None,
    }
}

/// The `Header/resourceId` of a document's root.
pub open spec fn resource_id_of(es: Seq<crate::xml::XmlElement>) -> Option<u64> {
    match child_of(es, 0, "Header"@) {
        Some(h) => match text_of(es, h, "resourceId"@) {
            Some(t) => crate::script::parse_u64_of(t),
            None => None,
        },
        None => None,
    }
}

/// The kinds a chain passes through, from its root down to the kind read
/// from `rel`, or the refusal; `visiting` holds the paths already passed,
/// `rel` last. A chain longer than the kinds has necessarily come back to a
/// path it passed, which is what the bound on `visiting` states.
pub open spec fn kind_chain(ks: Seq<KindSource>, src: Seq<char>, rel: Seq<char>, visiting: Seq<Seq<char>>)
    -> Result<Seq<int>, KindFailure>
    decreases ks.len() + 1 - visiting.len(),
{
    match kind_index(ks, rel) {
        None => Err(KindFailure::Missing(rel)),
        Some(i) => {
            let es = ks[i].doc@;
            if es[0].name@ != mob_kind_tag() {
                Err(KindFailure::NotAKind(rel, es[0].name@))
            } else if canonical_id_of(rel) is None {
                Err(KindFailure::NoId(rel))
            } else {
                match prototype_of(es) {
                    None => Ok(seq![i]),
                    Some(v) => match resolve_of(src, referrer_of(src, rel), v) {
                        None => Err(KindFailure::UnresolvedPrototype(rel, v)),
                        Some(p) => if visiting.contains(p.1) || visiting.len() > ks.len() {
                            Err(KindFailure::Cycle(visiting.push(p.1)))
                        } else {
                            match kind_chain(ks, src, p.1, visiting.push(p.1)) {
                                Ok(c) => Ok(c.push(i)),
                                Err(f) => Err(f),
                            }
                        },
                    },
                }
            }
        },
    }
}

/// Level `j` of a resolved chain: the kind at `c[j]` with its own fields,
/// inheriting from level `j - 1`.
pub open spec fn level_resolved(ks: Seq<KindSource>, src: Seq<char>, c: Seq<int>, levels: Seq<ResolvedKind>,
    owns: Seq<OwnKindFields>, j: int) -> bool
{
    let k = ks[c[j]];
    let es = k.doc@;
    &&& own_fields_of(es, src, referrer_of(src, k.relative@), owns[j])
    &&& inherits(if j == 0 { None } else { Some(levels[j - 1]) }, owns[j], canonical_id_of(k.relative@)->0,
        es[0].name@, resource_id_of(es), prototype_of(es), k.source, levels[j])
}

/// `levels` resolves the chain `c`, root first.
pub open spec fn resolved_along(ks: Seq<KindSource>, src: Seq<char>, c: Seq<int>, levels: Seq<ResolvedKind>,
    owns: Seq<OwnKindFields>) -> bool
{
    &&& levels.len() == c.len()
    &&& owns.len() == c.len()
    &&& forall|j: int| 0 <= j < c.len() ==> #[trigger] level_resolved(ks, src, c, levels, owns, j)
}

fn copy_provenance(p: &Provenance) -> (out: Provenance)
    ensures
        out.path@ == p.path@,
        out.blake3@ == p.blake3@,
        out.extractor@ == p.extractor@,
        opt_string(out.source_root) == opt_string(p.source_root),
{
    Provenance {
        path: copy_text(&p.path),
        blake3: copy_text(&p.blake3),
        extractor: copy_text(&p.extractor),
        source_root: copy_opt(&p.source_root),
        prototype_chain: None,
    }
}

fn contains_text(v: &Vec<String>, s: &String) -> (r: bool)
    ensures
        r == text_views(v@).contains(s@),
{
    let target = chars_of(s.as_str());
    let mut i: usize = 0;
    while i < v.len()
        invariant
            i <= v@.len(),
            target@ == s@,
            forall|j: int| 0 <= j < i ==> (#[trigger] v@[j])@ != s@,
        decreases v@.len() - i,
    {
        let here = chars_of(v[i].as_str());
        if seq_eq(here.as_slice(), target.as_slice()) {
            assert(text_views(v@)[i as int] == s@);
            return true;
        }
        i = i + 1;
    }
    proof {
        if text_views(v@).contains(s@) {
            let j = choose|j: int| 0 <= j < text_views(v@).len() && text_views(v@)[j] == s@;
            assert(v@[j]@ != s@);
        }
    }
    false
}


/// What a chain gives when `rest` follows it.
pub open spec fn chain_then(r: Result<Seq<int>, KindFailure>, rest: Seq<int>) -> Result<Seq<int>, KindFailure> {
    match r {
        Ok(c) => Ok(c + rest),
        Err(f) => Err(f),
    }
}

pub open spec fn idx_of(v: Seq<usize>) -> Seq<int> {
    v.map_values(|x: usize| x as int)
}

/// `ks[i]` is a mob kind whose path mints an id.
pub open spec fn chain_entry_ok(ks: Seq<KindSource>, i: int) -> bool {
    &&& 0 <= i < ks.len()
    &&& ks[i].doc@[0].name@ == mob_kind_tag()
    &&& canonical_id_of(ks[i].relative@) is Some
}

/// Resolves the mob kind read from `relative` through its prototype chain:
/// each `Header/Prototype` href is resolved against the source root `src`
/// and the path of the kind that names it, and every kind of the chain
/// inherits from the one its prototype names.
pub fn resolve_kind(kinds: &Vec<KindSource>, src: &str, relative: &str) -> (r: Result<ResolvedKind, KindError>)
    ensures
        match kind_chain(kinds@, src@, relative@, seq![relative@]) {
            Err(f) => r matches Err(e) && failure_of(e) == f,
            Ok(c) => r matches Ok(k) && exists|levels: Seq<ResolvedKind>, owns: Seq<OwnKindFields>|
                #[trigger] resolved_along(kinds@, src@, c, levels, owns) && levels.last() == k,
        },
{
    let ghost ks = kinds@;
    let ghost top = kind_chain(ks, src@, relative@, seq![relative@]);
    let mut cur: String = string_of(chars_of(relative).as_slice());
    let mut visiting: Vec<String> = Vec::new();
    visiting.push(string_of(chars_of(relative).as_slice()));
    let mut chain: Vec<usize> = Vec::new();
    proof {
        assert(text_views(visiting@) =~= seq![relative@]);
        assert(idx_of(chain@) =~= Seq::<int>::empty());
        match top {
            Ok(c) => { assert(c + Seq::<int>::empty() =~= c); },
            Err(_) => {},
        }
    }
    loop
        invariant_except_break
            top == chain_then(kind_chain(ks, src@, cur@, text_views(visiting@)), idx_of(chain@)),
        invariant
            ks == kinds@,
            top == kind_chain(ks, src@, relative@, seq![relative@]),
            visiting@.len() >= 1,
            text_views(visiting@).last() == cur@,
            text_views(visiting@).no_duplicates(),
            visiting@.len() <= ks.len() + 1,
            forall|j: int| 0 <= j < visiting@.len() - 1 ==> (#[trigger] kind_index(ks, text_views(visiting@)[j])) is Some,
            forall|j: int| 0 <= j < chain@.len() ==> #[trigger] chain_entry_ok(ks, chain@[j] as int),
        ensures
            chain@.len() > 0,
            forall|j: int| 0 <= j < chain@.len() ==> #[trigger] chain_entry_ok(ks, chain@[j] as int),
            top == Ok::<Seq<int>, KindFailure>(idx_of(chain@)),
        decreases ks.len() + 1 - visiting@.len(),
    {
        let ghost vis = text_views(visiting@);
        let ghost acc = idx_of(chain@);
        let i = match find_kind(kinds, cur.as_str()) {
            Some(i) => i,
            None => {
                return Err(KindError::Missing { relative: cur });
            },
        };
        proof { lemma_kind_index(ks, cur@); }
        let doc = &kinds[i].doc;
        let n = doc.len();
        assert(n > 0);
        let tag = copy_text(&doc.element(0).name);
        let tag_chars = chars_of(tag.as_str());
        if !eq_str(tag_chars.as_slice(), "gameMechanics.world.mob.MobKind") {
            return Err(KindError::NotAKind { relative: cur, tag });
        }
        match canonical_id_from_source_path(cur.as_str()) {
            Some(_) => {},
            None => {
                return Err(KindError::NoId { relative: cur });
            },
        }
        let ghost chain_before = chain@;
        chain.insert(0, i);
        proof {
            assert(idx_of(chain@) =~= seq![i as int] + acc);
            assert forall|j: int| 0 <= j < chain@.len() implies #[trigger] chain_entry_ok(ks, chain@[j] as int) by {
                if j > 0 {
                    assert(chain@[j] == chain_before[j - 1]);
                }
            }
        }
        match doc.prototype_href(0) {
            None => {
                assert(seq![i as int] + acc =~= idx_of(chain@));
                break;
            },
            Some(v) => {
                let referrer = referrer_path(src, cur.as_str());
                match resolve_href(src, referrer.as_str(), v.as_str()) {
                    None => {
                        return Err(KindError::UnresolvedPrototype { relative: cur, href: v });
                    },
                    Some((_, parent)) => {
                        if contains_text(&visiting, &parent) {
                            visiting.push(parent);
                            assert(text_views(visiting@) =~= vis.push(text_views(visiting@).last()));
                            return Err(KindError::Cycle { chain: visiting });
                        }
                        proof {
                            assert forall|j: int| 0 <= j < vis.len() implies (#[trigger] kind_index(ks, vis[j])) is Some by {
                                if j == vis.len() - 1 {
                                    assert(vis[j] == cur@);
                                }
                            }
                            lemma_found_paths_bound(ks, vis);
                        }
                        let ghost p = parent@;
                        visiting.push(copy_text(&parent));
                        proof {
                            assert(text_views(visiting@) =~= vis.push(p));
                            match kind_chain(ks, src@, p, vis.push(p)) {
                                Ok(c2) => { assert(c2.push(i as int) + acc =~= c2 + idx_of(chain@)); },
                                Err(_) => {},
                            }
                        }
                        cur = parent;
                    },
                }
            },
        }
    }
    let ghost c = idx_of(chain@);
    let mut prev: Option<ResolvedKind> = None;
    let ghost mut levels: Seq<ResolvedKind> = Seq::empty();
    let ghost mut owns: Seq<OwnKindFields> = Seq::empty();
    let mut j: usize = 0;
    while j < chain.len()
        invariant
            ks == kinds@,
            c == idx_of(chain@),
            chain@.len() > 0,
            forall|x: int| 0 <= x < chain@.len() ==> #[trigger] chain_entry_ok(ks, chain@[x] as int),
            j <= chain@.len(),
            levels.len() == j,
            owns.len() == j,
            forall|x: int| 0 <= x < j ==> #[trigger] level_resolved(ks, src@, c, levels, owns, x),
            j == 0 ==> prev is None,
            j > 0 ==> prev == Some(levels[j - 1]),
        decreases chain@.len() - j,
    {
        let i = chain[j];
        assert(chain_entry_ok(ks, chain@[j as int] as int));
        let k = &kinds[i];
        let rel = k.relative.as_str();
        let referrer = referrer_path(src, rel);
        let own = own_kind_fields(&k.doc, src, referrer.as_str());
        let ghost og = own;
        let id = canonical_id_from_source_path(rel).unwrap();
        let n = k.doc.len();
        let tag = copy_text(&k.doc.element(0).name);
        let rid = k.doc.resource_id(0);
        let proto = k.doc.prototype_href(0);
        let proto_ref: Option<&str> = match &proto {
            Some(h) => Some(h.as_str()),
            None => None,
        };
        let r = inherit_kind(prev.as_ref(), own, id.as_str(), tag.as_str(), rid, proto_ref, copy_provenance(&k.source));
        proof {
            let old_levels = levels;
            let old_owns = owns;
            levels = levels.push(r);
            owns = owns.push(og);
            assert(c[j as int] == i as int);
            assert(level_resolved(ks, src@, c, levels, owns, j as int));
            assert forall|x: int| 0 <= x < j + 1 implies #[trigger] level_resolved(ks, src@, c, levels, owns, x) by {
                if x < j {
                    assert(level_resolved(ks, src@, c, old_levels, old_owns, x));
                    assert(levels[x] == old_levels[x]);
                    assert(owns[x] == old_owns[x]);
                    if x > 0 {
                        assert(levels[x - 1] == old_levels[x - 1]);
                    }
                }
            }
        }
        prev = Some(r);
        j = j + 1;
    }
    let k = prev.unwrap();
    assert(resolved_along(ks, src@, c, levels, owns) && levels.last() == k);
    Ok(k)
}


/// A resolved prototype chain passes through no kind twice: the kinds it
/// names are distinct, and none of them was read from a path passed before
/// `rel`.
pub proof fn lemma_chain_without_repeats(ks: Seq<KindSource>, src: Seq<char>, rel: Seq<char>, visiting: Seq<Seq<char>>)
    requires
        visiting.len() >= 1,
        visiting.last() == rel,
        visiting.no_duplicates(),
    ensures
        kind_chain(ks, src, rel, visiting) matches Ok(c) ==> {
            &&& c.no_duplicates()
            &&& forall|j: int| 0 <= j < c.len() ==> !visiting.drop_last().contains(#[trigger] ks[c[j]].relative@)
        },
    decreases ks.len() + 1 - visiting.len(),
{
    lemma_kind_index(ks, rel);
    match kind_index(ks, rel) {
        None => {},
        Some(i) => {
            let es = ks[i].doc@;
            if es[0].name@ != mob_kind_tag() || canonical_id_of(rel) is None {
            } else {
                match prototype_of(es) {
                    None => {
                        assert forall|j: int| 0 <= j < 1 implies !visiting.drop_last().contains(#[trigger] ks[seq![i][j]].relative@) by {
                            if visiting.drop_last().contains(rel) {
                                let k = choose|k: int| 0 <= k < visiting.drop_last().len() && visiting.drop_last()[k] == rel;
                                assert(visiting[k] == visiting[visiting.len() - 1]);
                            }
                        }
                    },
                    Some(v) => match resolve_of(src, referrer_of(src, rel), v) {
                        None => {},
                        Some(p) => if visiting.contains(p.1) || visiting.len() > ks.len() {
                        } else {
                            let next = visiting.push(p.1);
                            assert(next.last() == p.1);
                            assert(next.drop_last() =~= visiting);
                            assert(next.no_duplicates()) by {
                                assert forall|a: int, b: int| 0 <= a < b < next.len() implies next[a] != next[b] by {
                                    if b == next.len() - 1 {
                                        assert(visiting.contains(next[a]));
                                    }
                                }
                            }
                            lemma_chain_without_repeats(ks, src, p.1, next);
                            match kind_chain(ks, src, p.1, next) {
                                Ok(c2) => {
                                    let c = c2.push(i);
                                    assert(visiting.contains(rel)) by {
                                        assert(visiting[visiting.len() - 1] == rel);
                                    }
                                    assert forall|a: int, b: int| 0 <= a < b < c.len() implies c[a] != c[b] by {
                                        if b == c.len() - 1 {
                                            assert(!visiting.contains(ks[c2[a]].relative@));
                                        }
                                    }
                                    assert forall|j: int| 0 <= j < c.len() implies !visiting.drop_last().contains(#[trigger] ks[c[j]].relative@) by {
                                        if j < c2.len() {
                                            assert(!visiting.contains(ks[c2[j]].relative@));
                                            if visiting.drop_last().contains(ks[c2[j]].relative@) {
                                                let k = choose|k: int| 0 <= k < visiting.drop_last().len() && visiting.drop_last()[k] == ks[c2[j]].relative@;
                                                assert(visiting[k] == ks[c2[j]].relative@);
                                            }
                                        } else {
                                            if visiting.drop_last().contains(rel) {
                                                let k = choose|k: int| 0 <= k < visiting.drop_last().len() && visiting.drop_last()[k] == rel;
                                                assert(visiting[k] == visiting[visiting.len() - 1]);
                                            }
                                        }
                                    }
                                },
                                Err(_) => {},
                            }
                        },
                    },
                }
            }
        },
    }
}

/// Along a resolved prototype chain, a kind's own value wins over what its
/// prototype resolved to, and a value it leaves out is the prototype's: for
/// the name, class, quality and every modifier. Loot tables a kind lists
/// replace its prototype's; a kind that lists none keeps them. The chain a
/// level records runs from the root kind down to that level's own id.
pub proof fn lemma_own_values_override_prototype(ks: Seq<KindSource>, src: Seq<char>, c: Seq<int>,
    levels: Seq<ResolvedKind>, owns: Seq<OwnKindFields>, j: int)
    requires
        resolved_along(ks, src, c, levels, owns),
        0 <= j < c.len(),
    ensures
        ({
            let d = levels[j].document;
            let o = owns[j];
            &&& o.hp_mod is Some ==> opt_string(d.hp_mod) == opt_string(o.hp_mod)
            &&& o.dps_mod is Some ==> opt_string(d.dps_mod) == opt_string(o.dps_mod)
            &&& o.exp_mod is Some ==> opt_string(d.exp_mod) == opt_string(o.exp_mod)
            &&& o.mana_mod is Some ==> opt_string(d.mana_mod) == opt_string(o.mana_mod)
            &&& o.loot_mod is Some ==> opt_string(d.loot_mod) == opt_string(o.loot_mod)
            &&& o.speed is Some ==> opt_string(d.speed) == opt_string(o.speed)
            &&& o.name is Some ==> opt_string(d.loc_ref.name) == opt_string(o.name)
            &&& o.mob_class is Some ==> opt_ref_view(d.mob_class) == opt_ref_view(o.mob_class)
            &&& o.quality is Some ==> opt_ref_view(d.quality) == opt_ref_view(o.quality)
            &&& o.loot_tables@.len() > 0 ==> ref_views(levels[j].loot_tables@) == ref_views(o.loot_tables@)
            &&& levels[j].chain@.len() == j + 1
            &&& levels[j].chain@[j]@ == levels[j].id@
        }),
        j > 0 ==> ({
            let d = levels[j].document;
            let p = levels[j - 1].document;
            let o = owns[j];
            &&& o.hp_mod is None ==> opt_string(d.hp_mod) == opt_string(p.hp_mod)
            &&& o.dps_mod is None ==> opt_string(d.dps_mod) == opt_string(p.dps_mod)
            &&& o.exp_mod is None ==> opt_string(d.exp_mod) == opt_string(p.exp_mod)
            &&& o.mana_mod is None ==> opt_string(d.mana_mod) == opt_string(p.mana_mod)
            &&& o.loot_mod is None ==> opt_string(d.loot_mod) == opt_string(p.loot_mod)
            &&& o.speed is None ==> opt_string(d.speed) == opt_string(p.speed)
            &&& o.name is None ==> opt_string(d.loc_ref.name) == opt_string(p.loc_ref.name)
            &&& o.mob_class is None ==> opt_ref_view(d.mob_class) == opt_ref_view(p.mob_class)
            &&& o.quality is None ==> opt_ref_view(d.quality) == opt_ref_view(p.quality)
            &&& o.loot_tables@.len() == 0 ==> ref_views(levels[j].loot_tables@) == ref_views(levels[j - 1].loot_tables@)
            &&& forall|i: int| 0 <= i < j ==> (#[trigger] levels[j].chain@[i])@ == levels[j - 1].chain@[i]@
        }),
    decreases j,
{
    assert(level_resolved(ks, src, c, levels, owns, j));
    if j > 0 {
        lemma_own_values_override_prototype(ks, src, c, levels, owns, j - 1);
        assert(level_resolved(ks, src, c, levels, owns, j - 1));
        let chain = text_views(levels[j - 1].chain@).push(levels[j].id@);
        assert(text_views(levels[j].chain@) == chain);
        assert(levels[j].chain@.len() == j + 1);
        assert(text_views(levels[j].chain@)[j] == levels[j].chain@[j]@);
        assert forall|i: int| 0 <= i < j implies (#[trigger] levels[j].chain@[i])@ == levels[j - 1].chain@[i]@ by {
            assert(text_views(levels[j].chain@)[i] == levels[j].chain@[i]@);
            assert(text_views(levels[j - 1].chain@)[i] == levels[j - 1].chain@[i]@);
        }
    } else {
        assert(text_views(levels[0].chain@) == seq![levels[0].id@]);
        assert(text_views(levels[0].chain@).len() == levels[0].chain@.len());
        assert(text_views(levels[0].chain@)[0] == levels[0].chain@[0]@);
    }
}

} // verus!
