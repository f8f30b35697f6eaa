//! Faction extraction, closed over the relations the seed factions reach.
//!
//! A source faction lists only the factions it treats better than default:
//! `friends` and `neutrals`. It never lists enemies, so hostility is what is
//! left over. The walk visits each faction once, in the order it was first
//! named.

use vstd::prelude::*;
use crate::model::{FactionRelation, LocRefs, Provenance, default_stance, default_stance_of};
use crate::overlay::{Doc, DocView, doc_view, entries_view};
use crate::reach::{ascending, id_set, insert_id, contains_id};
use crate::reference::{canonical_id_of, canonical_id_from_source_path};
use crate::scan::{resolve_of, resolve_href, loc_key_of, loc_key, join_text, join_path, text_views};
use crate::text::{chars_of, string_of, eq_str, push_str};
use crate::xml::{
    XmlDoc, XmlElement, child_of, named_children, attr_of, href_of, text_of, parse_bool_of, opt_string, put, put_entry,
    extra_fields_of, str_views,
};
use crate::script::{parse_i64_of, parse_u64_of};

verus! {

/// One faction as extracted.
#[derive(Debug)]
pub struct FactionDocument {
    pub schema_version: u8,
    pub id: String,
    pub source_type: String,
    pub resource_id: Option<u64>,
    pub loc_ref: LocRefs,
    /// No source field marks a faction as playable; membership is curated.
    pub player_faction: Option<bool>,
    pub attackable: bool,
    pub default_stance: String,
    pub relations: Vec<FactionRelation>,
    pub extra: Vec<(String, Doc)>,
    pub source: Provenance,
}

/// Why a faction could not be extracted.
#[derive(Debug, Clone, PartialEq, Eq)]
pub enum FactionError {
    /// The document's root element is not a faction.
    NotAFaction { relative: String, found: String },
    /// No canonical id covers the faction's path.
    NoId { relative: String },
}

pub open spec fn faction_error_text(e: FactionError) -> Seq<char> {
    match e {
        FactionError::NotAFaction { relative, found } => relative@ + " is a "@ + found@ + ", not a "@ + faction_root(),
        FactionError::NoId { relative } => "build faction ID from "@ + relative@,
    }
}

impl FactionError {
    pub fn message(&self) -> (r: String)
        ensures
            r@ == faction_error_text(*self),
    {
        let mut out: Vec<char> = Vec::new();
        match self {
            FactionError::NotAFaction { relative, found } => {
                push_str(&mut out, relative.as_str());
                push_str(&mut out, " is a ");
                push_str(&mut out, found.as_str());
                push_str(&mut out, ", not a ");
                push_str(&mut out, "gameMechanics.world.creature.Faction");
            },
            FactionError::NoId { relative } => {
                push_str(&mut out, "build faction ID from ");
                push_str(&mut out, relative.as_str());
            },
        }
        assert(out@ =~= faction_error_text(*self));
        string_of(out.as_slice())
    }
}

pub open spec fn faction_root() -> Seq<char> {
    "gameMechanics.world.creature.Faction"@
}

/// How a faction's relations are derived, recorded beside them.
pub open spec fn derivation() -> Seq<char> {
    "friends -> friendly, neutrals -> neutral, everything else -> default_stance; default_stance from the <defaultReputation> sign, attackable from <littleOldMan>; player_faction has no source field and is a curated overlay"@
}

// ----- what a faction names --------------------------------------------------------------

/// The non-empty `href`s of the `Item`s of `root`'s `list`, in order.
pub open spec fn listed_hrefs(es: Seq<XmlElement>, root: int, list: Seq<char>) -> Seq<Seq<char>> {
    match child_of(es, root, list) {
        Some(c) => item_hrefs(es, named_children(es, c, "Item"@, es.len() as int)),
        None => Seq::empty(),
    }
}

pub open spec fn item_hrefs(es: Seq<XmlElement>, items: Seq<int>) -> Seq<Seq<char>>
    decreases items.len(),
{
    if items.len() == 0 {
        Seq::empty()
    } else {
        let rest = item_hrefs(es, items.drop_last());
        match attr_of(es[items.last()].attributes@, "href"@) {
            Some(h) => if h.len() > 0 { rest.push(h) } else { rest },
            None => rest,
        }
    }
}

/// The relations a list of hrefs yields: each href that resolves to a path
/// with a canonical id, with the list's stance.
pub open spec fn relations_of(src: Seq<char>, path: Seq<char>, hrefs: Seq<Seq<char>>, stance: Seq<char>)
    -> Seq<(Seq<char>, Seq<char>, Seq<char>)>
    decreases hrefs.len(),
{
    if hrefs.len() == 0 {
        Seq::empty()
    } else {
        let rest = relations_of(src, path, hrefs.drop_last(), stance);
        match resolve_of(src, path, hrefs.last()) {
            Some(r) => match canonical_id_of(r.1) {
                Some(id) => rest.push((id, stance, r.1)),
                None => rest,
            },
            None => rest,
        }
    }
}

/// Every relation a faction names, friends first: (target id, stance,
/// target path).
pub open spec fn raw_relations(es: Seq<XmlElement>, src: Seq<char>, path: Seq<char>) -> Seq<(Seq<char>, Seq<char>, Seq<char>)> {
    relations_of(src, path, listed_hrefs(es, 0, "friends"@), "friendly"@)
        + relations_of(src, path, listed_hrefs(es, 0, "neutrals"@), "neutral"@)
}

/// The faction paths a faction leads to, in order: its relations' targets,
/// then its parent.
pub open spec fn discovered(es: Seq<XmlElement>, src: Seq<char>, path: Seq<char>) -> Seq<Seq<char>> {
    let targets = raw_relations(es, src, path).map_values(|r: (Seq<char>, Seq<char>, Seq<char>)| r.2);
    match href_of(es, 0, "parentFaction"@) {
        Some(h) => match resolve_of(src, path, h) {
            Some(r) => targets.push(r.1),
            None => targets,
        },
        None => targets,
    }
}

/// The stance of the first relation to `id`.
pub open spec fn first_stance(raw: Seq<(Seq<char>, Seq<char>, Seq<char>)>, id: Seq<char>) -> Seq<char>
    decreases raw.len(),
{
    if raw.len() == 0 {
        Seq::empty()
    } else if raw[0].0 == id {
        raw[0].1
    } else {
        first_stance(raw.drop_first(), id)
    }
}

pub open spec fn relation_views(v: Seq<FactionRelation>) -> Seq<(Seq<char>, Seq<char>)> {
    v.map_values(|r: FactionRelation| (r.faction@, r.stance@))
}

/// Relations sorted by target, one per target: the first one named.
pub open spec fn relations_wf(out: Seq<(Seq<char>, Seq<char>)>, raw: Seq<(Seq<char>, Seq<char>, Seq<char>)>) -> bool {
    &&& forall|a: int, b: int| 0 <= a < b < out.len() ==> crate::overlay::lex_lt(#[trigger] out[a].0, #[trigger] out[b].0)
    &&& forall|k: int| 0 <= k < out.len() ==> (#[trigger] out[k]).1 == first_stance(raw, out[k].0)
    &&& pair_targets(out) == raw_targets(raw)
}

pub open spec fn pair_targets(out: Seq<(Seq<char>, Seq<char>)>) -> Set<Seq<char>> {
    Set::new(|x: Seq<char>| exists|k: int| 0 <= k < out.len() && (#[trigger] out[k]).0 == x)
}

pub open spec fn raw_targets(raw: Seq<(Seq<char>, Seq<char>, Seq<char>)>) -> Set<Seq<char>> {
    Set::new(|x: Seq<char>| exists|j: int| 0 <= j < raw.len() && (#[trigger] raw[j]).0 == x)
}

/// The items of `d` not already in `seen` nor earlier in `d`, in order.
pub open spec fn fresh(seen: Set<Seq<char>>, d: Seq<Seq<char>>) -> Seq<Seq<char>>
    decreases d.len(),
{
    if d.len() == 0 {
        Seq::empty()
    } else {
        let f = fresh(seen, d.drop_last());
        if seen.contains(d.last()) || d.drop_last().contains(d.last()) { f } else { f.push(d.last()) }
    }
}

/// What a faction document holds, read from its source.
pub open spec fn faction_fields(d: FactionDocument, es: Seq<XmlElement>, src: Seq<char>, path: Seq<char>, id: Seq<char>) -> bool {
    &&& d.schema_version == 1
    &&& d.id@ == id
    &&& d.source_type@ == es[0].name@
    &&& d.resource_id == match child_of(es, 0, "Header"@) {
        Some(h) => match text_of(es, h, "resourceId"@) {
            Some(t) => parse_u64_of(t),
            None => None,
        },
        None => None,
    }
    &&& opt_string(d.loc_ref.name) == match href_of(es, 0, "name"@) {
        Some(h) => loc_key_of(src, path, h),
        None => None,
    }
    &&& d.loc_ref.description is None && d.loc_ref.bind_description is None && d.loc_ref.goal is None
    &&& d.loc_ref.start is None && d.loc_ref.check is None && d.loc_ref.finish is None && d.loc_ref.title is None
    &&& d.player_faction is None
    &&& d.attackable == !(match text_of(es, 0, "littleOldMan"@) {
        Some(t) => parse_bool_of(t) == Some(true),
        None => false,
    })
    &&& d.default_stance@ == default_stance_of(match text_of(es, 0, "defaultReputation"@) {
        Some(t) => parse_i64_of(t),
        None => None,
    })
    &&& relations_wf(relation_views(d.relations@), raw_relations(es, src, path))
    &&& entries_view(d.extra@) == put(extra_fields_of(es, 0, seq!["Header"@, "name"@, "friends"@, "neutrals"@]),
        "derivation"@, DocView::Text(derivation()))
}

// ----- the walk ------------------------------------------------------------------------

/// The factions still to visit and every faction already named.
#[derive(Debug)]
pub struct FactionWalk {
    /// Paths in the order they were first named; `next` is the position of
    /// the next one to visit.
    pub queue: Vec<String>,
    pub next: usize,
    /// Every path named so far, ascending.
    pub seen: Vec<String>,
}

impl FactionWalk {
    /// Every faction named so far is queued exactly once.
    pub open spec fn wf(&self) -> bool {
        &&& ascending(self.seen@)
        &&& self.next <= self.queue@.len()
        &&& text_views(self.queue@).no_duplicates()
        &&& text_views(self.queue@).to_set() == id_set(self.seen@)
    }

    /// A walk that starts from `seeds`, visited in ascending order.
    pub fn new(seeds: &Vec<String>) -> (w: Self)
        ensures
            w.wf(),
            w.next == 0,
            id_set(w.seen@) == id_set(seeds@),
            text_views(w.queue@) == text_views(w.seen@),
    {
        let mut seen: Vec<String> = Vec::new();
        let mut i: usize = 0;
        assert(id_set(seen@) =~= Set::<Seq<char>>::empty());
        while i < seeds.len()
            invariant
                i <= seeds@.len(),
                ascending(seen@),
                id_set(seen@) == Set::new(|x: Seq<char>| exists|k: int| 0 <= k < i && (#[trigger] seeds@[k])@ == x),
            decreases seeds@.len() - i,
        {
            let ghost before = id_set(seen@);
            insert_id(&mut seen, seeds[i].as_str());
            assert(id_set(seen@) =~= Set::new(|x: Seq<char>| exists|k: int| 0 <= k < i + 1 && (#[trigger] seeds@[k])@ == x)) by {
                assert forall|x: Seq<char>| (exists|k: int| 0 <= k < i + 1 && (#[trigger] seeds@[k])@ == x)
                    implies id_set(seen@).contains(x) by {
                    let k = choose|k: int| 0 <= k < i + 1 && (#[trigger] seeds@[k])@ == x;
                    if k < i {
                        assert(before.contains(x));
                    }
                }
            }
            i = i + 1;
        }
        assert(id_set(seen@) =~= id_set(seeds@));
        let queue = copy_all(&seen);
        proof {
            let tv = text_views(seen@);
            assert forall|a: int, b: int| 0 <= a < tv.len() && 0 <= b < tv.len() && a != b implies tv[a] != tv[b] by {
                if a < b {
                    assert(crate::overlay::lex_lt(seen@[a]@, seen@[b]@));
                } else {
                    assert(crate::overlay::lex_lt(seen@[b]@, seen@[a]@));
                }
            }
            assert forall|x: Seq<char>| #[trigger] tv.to_set().contains(x) <==> id_set(seen@).contains(x) by {
                if tv.contains(x) {
                    let i = choose|i: int| 0 <= i < tv.len() && tv[i] == x;
                    assert(seen@[i]@ == x);
                }
                if id_set(seen@).contains(x) {
                    let i = choose|i: int| 0 <= i < seen@.len() && seen@[i]@ == x;
                    assert(tv[i] == x);
                }
            }
            assert(tv.to_set() =~= id_set(seen@));
        }
        FactionWalk { queue, next: 0, seen }
    }

    /// The next faction path to visit, if any is left.
    pub fn next_path(&mut self) -> (r: Option<String>)
        requires
            old(self).wf(),
        ensures
            final(self).wf(),
            final(self).queue == old(self).queue,
            final(self).seen == old(self).seen,
            if old(self).next < old(self).queue@.len() {
                r matches Some(p) && p@ == old(self).queue@[old(self).next as int]@ && final(self).next == old(self).next + 1
            } else {
                r is None && final(self).next == old(self).next
            },
    {
        if self.next < self.queue.len() {
            let p = string_of(chars_of(self.queue[self.next].as_str()).as_slice());
            self.next = self.next + 1;
            Some(p)
        } else {
            None
        }
    }

    /// Extracts the faction at `relative` below `src` from its parsed
    /// document, and queues every faction it names that was not named
    /// before.
    pub fn visit(&mut self, src: &str, relative: &str, doc: &XmlDoc, source: Provenance)
        -> (r: Result<FactionDocument, FactionError>)
        requires
            old(self).wf(),
        ensures
            final(self).wf(),
            final(self).next == old(self).next,
            ({
                let es = doc@;
                let path = join_text(src@, relative@);
                if es[0].name@ != faction_root() {
                    &&& r matches Err(FactionError::NotAFaction { relative: rel, found }) && rel@ == relative@ && found@ == es[0].name@
                    &&& final(self).queue == old(self).queue && final(self).seen == old(self).seen
                } else if canonical_id_of(relative@) is None {
                    &&& r matches Err(FactionError::NoId { relative: rel }) && rel@ == relative@
                    &&& final(self).queue == old(self).queue && final(self).seen == old(self).seen
                } else {
                    let d = discovered(es, src@, path);
                    &&& r matches Ok(doc_out) && faction_fields(doc_out, es, src@, path, canonical_id_of(relative@)->0)
                        && doc_out.source == source
                    &&& text_views(final(self).queue@) == text_views(old(self).queue@) + fresh(id_set(old(self).seen@), d)
                    &&& id_set(final(self).seen@) == id_set(old(self).seen@) + d.to_set()
                }
            }),
    {
        let n = doc.len();
        let root_name = &doc.element(0).name;
        let rn = chars_of(root_name.as_str());
        if !eq_str(rn.as_slice(), "gameMechanics.world.creature.Faction") {
            return Err(FactionError::NotAFaction { relative: own(relative), found: own(root_name.as_str()) });
        }
        let id = match canonical_id_from_source_path(relative) {
            Some(id) => id,
            None => return Err(FactionError::NoId { relative: own(relative) }),
        };
        let path = join_path(src, relative);
        let ghost es = doc@;
        let ghost pv = path@;
        let mut raw = list_relations(doc, src, path.as_str(), "friends", "friendly");
        let mut more = list_relations(doc, src, path.as_str(), "neutrals", "neutral");
        let ghost fv = triple_views(raw@);
        let ghost nv = triple_views(more@);
        raw.append(&mut more);
        assert(triple_views(raw@) =~= fv + nv);
        let ghost rawv = triple_views(raw@);
        assert(rawv == raw_relations(es, src@, pv));
        let relations = sorted_relations(&raw);
        let targets = discovered_paths(doc, src, path.as_str(), &raw);
        self.enqueue(&targets);
        let d = faction_document(doc, src, path.as_str(), id, relations, source);
        Ok(d)
    }

    /// Queues each of `targets` not named before, in order.
    fn enqueue(&mut self, targets: &Vec<String>)
        requires
            old(self).wf(),
        ensures
            final(self).wf(),
            final(self).next == old(self).next,
            text_views(final(self).queue@) == text_views(old(self).queue@) + fresh(id_set(old(self).seen@), text_views(targets@)),
            id_set(final(self).seen@) == id_set(old(self).seen@) + text_views(targets@).to_set(),
    {
        let ghost dv = text_views(targets@);
        let ghost q0 = text_views(self.queue@);
        let ghost s0 = id_set(self.seen@);
        let mut k: usize = 0;
        assert(fresh(s0, dv.take(0)) =~= Seq::<Seq<char>>::empty());
        assert(dv.take(0).to_set() =~= Set::<Seq<char>>::empty());
        assert(q0 + Seq::<Seq<char>>::empty() =~= q0);
        assert(s0 + Set::<Seq<char>>::empty() =~= s0);
        while k < targets.len()
            invariant
                k <= targets@.len(),
                dv == text_views(targets@),
                ascending(self.seen@),
                self.next == old(self).next,
                self.next <= self.queue@.len(),
                text_views(self.queue@) == q0 + fresh(s0, dv.take(k as int)),
                id_set(self.seen@) == s0 + dv.take(k as int).to_set(),
            decreases targets@.len() - k,
        {
            let x = &targets[k];
            assert(dv[k as int] == x@);
            assert(dv.take(k + 1).drop_last() =~= dv.take(k as int));
            assert(dv.take(k + 1).last() == x@);
            assert(dv.take(k as int).to_set().contains(x@) == dv.take(k as int).contains(x@));
            if !contains_id(&self.seen, x.as_str()) {
                let ghost qb = text_views(self.queue@);
                insert_id(&mut self.seen, x.as_str());
                self.queue.push(own(x.as_str()));
                assert(text_views(self.queue@) =~= qb.push(x@));
                assert(q0 + fresh(s0, dv.take(k + 1)) =~= (q0 + fresh(s0, dv.take(k as int))).push(x@));
            }
            assert(dv.take(k + 1).to_set() =~= dv.take(k as int).to_set().insert(x@));
            assert(id_set(self.seen@) =~= s0 + dv.take(k + 1).to_set());
            k = k + 1;
        }
        assert(dv.take(targets@.len() as int) =~= dv);
        proof {
            lemma_fresh(s0, dv);
            let f = fresh(s0, dv);
            let q = text_views(self.queue@);
            assert(q == q0 + f);
            assert forall|a: int, b: int| 0 <= a < q.len() && 0 <= b < q.len() && a != b implies q[a] != q[b] by {
                if a < q0.len() && b >= q0.len() {
                    assert(q0.contains(q[a]));
                    assert(f.contains(q[b]));
                    assert(q0.to_set().contains(q[a]));
                } else if b < q0.len() && a >= q0.len() {
                    assert(q0.contains(q[b]));
                    assert(f.contains(q[a]));
                    assert(q0.to_set().contains(q[b]));
                } else if a >= q0.len() && b >= q0.len() {
                    assert(q[a] == f[a - q0.len()] && q[b] == f[b - q0.len()]);
                } else {
                    assert(q[a] == q0[a] && q[b] == q0[b]);
                }
            }
            assert forall|x: Seq<char>| #[trigger] q.to_set().contains(x) <==> (s0 + dv.to_set()).contains(x) by {
                if q.contains(x) {
                    let i = choose|i: int| 0 <= i < q.len() && q[i] == x;
                    if i < q0.len() {
                        assert(q0[i] == x);
                        assert(q0.to_set().contains(x));
                    } else {
                        assert(f[i - q0.len()] == x);
                        assert(f.contains(x));
                    }
                }
                if s0.contains(x) {
                    assert(q0.to_set().contains(x));
                    let i = choose|i: int| 0 <= i < q0.len() && q0[i] == x;
                    assert(q[i] == x);
                } else if dv.contains(x) {
                    assert(f.contains(x));
                    let i = choose|i: int| 0 <= i < f.len() && f[i] == x;
                    assert(q[q0.len() + i] == x);
                }
            }
            assert(q.to_set() =~= id_set(self.seen@));
        }
    }
}

/// `fresh` names each of its items once, none already seen, and exactly the
/// items of `d` not seen.
proof fn lemma_fresh(s: Set<Seq<char>>, d: Seq<Seq<char>>)
    ensures
        fresh(s, d).no_duplicates(),
        forall|x: Seq<char>| #[trigger] fresh(s, d).contains(x) ==> !s.contains(x) && d.contains(x),
        forall|x: Seq<char>| #[trigger] d.contains(x) && !s.contains(x) ==> fresh(s, d).contains(x),
    decreases d.len(),
{
    if d.len() > 0 {
        let p = d.drop_last();
        let x = d.last();
        lemma_fresh(s, p);
        let f = fresh(s, p);
        assert forall|y: Seq<char>| #[trigger] p.contains(y) implies d.contains(y) by {
            let i = choose|i: int| 0 <= i < p.len() && p[i] == y;
            assert(d[i] == y);
        }
        assert forall|y: Seq<char>| #[trigger] d.contains(y) implies p.contains(y) || y == x by {
            let i = choose|i: int| 0 <= i < d.len() && d[i] == y;
            if i < d.len() - 1 {
                assert(p[i] == y);
            }
        }
        if !(s.contains(x) || p.contains(x)) {
            let g = f.push(x);
            assert(!f.contains(x));
            assert forall|a: int, b: int| 0 <= a < g.len() && 0 <= b < g.len() && a != b implies g[a] != g[b] by {
                if a == f.len() {
                    assert(f.contains(g[b]));
                } else if b == f.len() {
                    assert(f.contains(g[a]));
                }
            }
            assert forall|y: Seq<char>| #[trigger] g.contains(y) implies !s.contains(y) && d.contains(y) by {
                let i = choose|i: int| 0 <= i < g.len() && g[i] == y;
                if i < f.len() {
                    assert(f[i] == y);
                    assert(f.contains(y));
                }
            }
            assert forall|y: Seq<char>| #[trigger] d.contains(y) && !s.contains(y) implies g.contains(y) by {
                if y == x {
                    assert(g[f.len() as int] == y);
                } else {
                    assert(p.contains(y));
                    assert(f.contains(y));
                    let i = choose|i: int| 0 <= i < f.len() && f[i] == y;
                    assert(g[i] == y);
                }
            }
        }
    }
}

/// The faction paths a faction leads to: its relations' targets, then its
/// parent.
fn discovered_paths(doc: &XmlDoc, src: &str, path: &str, raw: &Vec<(String, String, String)>) -> (targets: Vec<String>)
    requires
        triple_views(raw@) == raw_relations(doc@, src@, path@),
    ensures
        text_views(targets@) == discovered(doc@, src@, path@),
{
    let ghost rawv = triple_views(raw@);
    let mut targets: Vec<String> = Vec::new();
    let mut i: usize = 0;
    assert(rawv.take(0).map_values(|r: (Seq<char>, Seq<char>, Seq<char>)| r.2) =~= Seq::<Seq<char>>::empty());
    assert(text_views(targets@) =~= Seq::<Seq<char>>::empty());
    while i < raw.len()
        invariant
            i <= raw@.len(),
            rawv == triple_views(raw@),
            text_views(targets@) == rawv.take(i as int).map_values(|r: (Seq<char>, Seq<char>, Seq<char>)| r.2),
        decreases raw@.len() - i,
    {
        let ghost before = text_views(targets@);
        targets.push(own(raw[i].2.as_str()));
        assert(text_views(targets@) =~= before.push(rawv[i as int].2));
        assert(rawv.take(i + 1).map_values(|r: (Seq<char>, Seq<char>, Seq<char>)| r.2)
            =~= rawv.take(i as int).map_values(|r: (Seq<char>, Seq<char>, Seq<char>)| r.2).push(rawv[i as int].2));
        i = i + 1;
    }
    assert(rawv.take(raw@.len() as int) =~= rawv);
    match doc.href(0, "parentFaction") {
        Some(h) => match resolve_href(src, path, h.as_str()) {
            Some((_, parent)) => {
                let ghost before = text_views(targets@);
                let ghost pview = match resolve_of(src@, path@, h@) {
                    Some(r) => r.1,
                    None => Seq::empty(),
                };
                targets.push(parent);
                assert(text_views(targets@) =~= before.push(pview));
            },
            None => {},
        },
        None => {},
    }
    targets
}

/// The faction document, its relations already derived.
fn faction_document(doc: &XmlDoc, src: &str, path: &str, id: String, relations: Vec<FactionRelation>, source: Provenance)
    -> (d: FactionDocument)
    requires
        relations_wf(relation_views(relations@), raw_relations(doc@, src@, path@)),
    ensures
        faction_fields(d, doc@, src@, path@, id@),
        d.source == source,
{
    let n = doc.len();
    let name = match doc.href(0, "name") {
        Some(h) => loc_key(src, path, h.as_str()),
        None => None,
    };
    let attackable = match doc.bool_value(0, "littleOldMan") {
        Some(b) => !b,
        None => true,
    };
    let stance = default_stance(doc.i64_value(0, "defaultReputation"));
    let mut excluded: Vec<&str> = Vec::new();
    excluded.push("Header");
    excluded.push("name");
    excluded.push("friends");
    excluded.push("neutrals");
    assert(str_views(excluded@) =~= seq!["Header"@, "name"@, "friends"@, "neutrals"@]);
    let mut extra = doc.extra_fields(0, excluded.as_slice());
    let text = own("friends -> friendly, neutrals -> neutral, everything else -> default_stance; default_stance from the <defaultReputation> sign, attackable from <littleOldMan>; player_faction has no source field and is a curated overlay");
    put_entry(&mut extra, chars_of("derivation").as_slice(), Doc::Text(text));
    FactionDocument {
        schema_version: 1,
        id,
        source_type: own(doc.element(0).name.as_str()),
        resource_id: doc.resource_id(0),
        loc_ref: LocRefs {
            name,
            description: None,
            bind_description: None,
            goal: None,
            start: None,
            check: None,
            finish: None,
            title: None,
        },
        player_faction: None,
        attackable,
        default_stance: own(stance),
        relations,
        extra,
        source,
    }
}

/// The relations one list of a faction yields.
fn list_relations(doc: &XmlDoc, src: &str, path: &str, list: &str, stance: &str) -> (out: Vec<(String, String, String)>)
    ensures
        triple_views(out@) == relations_of(src@, path@, listed_hrefs(doc@, 0, list@), stance@),
{
    let mut out: Vec<(String, String, String)> = Vec::new();
    let ghost es = doc@;
    match doc.child(0, list) {
        None => {
            assert(triple_views(out@) =~= Seq::<(Seq<char>, Seq<char>, Seq<char>)>::empty());
            out
        },
        Some(c) => {
            let n = doc.len();
            let items = doc.children(c, "Item");
            let ghost iv = items@.map_values(|j: usize| j as int);
            assert(iv == named_children(es, c as int, "Item"@, es.len() as int));
            proof { lemma_children_in_range(es, c as int, "Item"@, es.len() as int); }
            let mut i: usize = 0;
            assert(iv.take(0) =~= Seq::<int>::empty());
            assert(triple_views(out@) =~= Seq::<(Seq<char>, Seq<char>, Seq<char>)>::empty());
            while i < items.len()
                invariant
                    i <= items@.len(),
                    es == doc@,
                    iv == items@.map_values(|j: usize| j as int),
                    forall|x: int| 0 <= x < iv.len() ==> 0 <= #[trigger] iv[x] < es.len(),
                    triple_views(out@) == relations_of(src@, path@, item_hrefs(es, iv.take(i as int)), stance@),
                decreases items@.len() - i,
            {
                assert(iv.take(i + 1).drop_last() =~= iv.take(i as int));
                assert(iv.take(i + 1).last() == items@[i as int] as int);
                assert(iv[i as int] == items@[i as int] as int);
                let it = items[i];
                let ghost ih = item_hrefs(es, iv.take(i as int));
                let ghost before = triple_views(out@);
                match doc.attribute(it, "href") {
                    Some(h) => {
                        if h.as_str().unicode_len() > 0 {
                            assert(item_hrefs(es, iv.take(i + 1)) == ih.push(h@));
                            assert(ih.push(h@).drop_last() =~= ih);
                            match resolve_href(src, path, h.as_str()) {
                                Some((_, rel)) => match canonical_id_from_source_path(rel.as_str()) {
                                    Some(id) => {
                                        let ghost t = (id@, stance@, rel@);
                                        out.push((id, own(stance), rel));
                                        assert(triple_views(out@) =~= before.push(t));
                                    },
                                    None => {},
                                },
                                None => {},
                            }
                        } else {
                            assert(item_hrefs(es, iv.take(i + 1)) == ih);
                        }
                    },
                    None => {
                        assert(item_hrefs(es, iv.take(i + 1)) == ih);
                    },
                }
                i = i + 1;
            }
            assert(iv.take(items@.len() as int) =~= iv);
            out
        },
    }
}

proof fn lemma_children_in_range(es: Seq<XmlElement>, c: int, name: Seq<char>, upto: int)
    requires
        upto <= es.len(),
    ensures
        forall|x: int| 0 <= x < named_children(es, c, name, upto).len()
            ==> 0 <= #[trigger] named_children(es, c, name, upto)[x] < es.len(),
    decreases upto,
{
    if upto > 0 {
        lemma_children_in_range(es, c, name, upto - 1);
        let prev = named_children(es, c, name, upto - 1);
        let all = named_children(es, c, name, upto);
        assert forall|x: int| 0 <= x < all.len() implies 0 <= #[trigger] all[x] < es.len() by {
            if x < prev.len() {
                assert(all[x] == prev[x]);
            }
        }
    }
}

/// The stance of the first relation to `id`.
fn stance_for(raw: &Vec<(String, String, String)>, id: &str) -> (s: String)
    ensures
        s@ == first_stance(triple_views(raw@), id@),
{
    let ghost rv = triple_views(raw@);
    let mut i: usize = 0;
    assert(rv.skip(0) =~= rv);
    while i < raw.len()
        invariant
            i <= raw@.len(),
            rv == triple_views(raw@),
            first_stance(rv.skip(i as int), id@) == first_stance(rv, id@),
        decreases raw@.len() - i,
    {
        assert(rv.skip(i as int)[0] == rv[i as int]);
        if eq_str(chars_of(raw[i].0.as_str()).as_slice(), id) {
            return own(raw[i].1.as_str());
        }
        assert(rv.skip(i as int).drop_first() =~= rv.skip(i + 1));
        i = i + 1;
    }
    assert(rv.skip(i as int).len() == 0);
    String::new()
}

/// The relations sorted by target, the first one named for each target.
fn sorted_relations(raw: &Vec<(String, String, String)>) -> (out: Vec<FactionRelation>)
    ensures
        relations_wf(relation_views(out@), triple_views(raw@)),
{
    let ghost rv = triple_views(raw@);
    let mut ids: Vec<String> = Vec::new();
    let mut i: usize = 0;
    assert(id_set(ids@) =~= Set::<Seq<char>>::empty());
    while i < raw.len()
        invariant
            i <= raw@.len(),
            rv == triple_views(raw@),
            ascending(ids@),
            id_set(ids@) == Set::new(|x: Seq<char>| exists|j: int| 0 <= j < i && (#[trigger] rv[j]).0 == x),
        decreases raw@.len() - i,
    {
        let ghost before = id_set(ids@);
        insert_id(&mut ids, raw[i].0.as_str());
        assert(rv[i as int].0 == raw@[i as int].0@);
        assert(id_set(ids@) =~= Set::new(|x: Seq<char>| exists|j: int| 0 <= j < i + 1 && (#[trigger] rv[j]).0 == x)) by {
            assert forall|x: Seq<char>| (exists|j: int| 0 <= j < i + 1 && (#[trigger] rv[j]).0 == x) implies id_set(ids@).contains(x) by {
                let j = choose|j: int| 0 <= j < i + 1 && (#[trigger] rv[j]).0 == x;
                if j < i {
                    assert(before.contains(x));
                }
            }
        }
        i = i + 1;
    }
    let mut out: Vec<FactionRelation> = Vec::new();
    let mut k: usize = 0;
    while k < ids.len()
        invariant
            k <= ids@.len(),
            rv == triple_views(raw@),
            ascending(ids@),
            out@.len() == k,
            forall|m: int| 0 <= m < k ==> (#[trigger] out@[m]).faction@ == ids@[m]@ && out@[m].stance@ == first_stance(rv, ids@[m]@),
        decreases ids@.len() - k,
    {
        let stance = stance_for(raw, ids[k].as_str());
        out.push(FactionRelation { faction: own(ids[k].as_str()), stance });
        k = k + 1;
    }
    let ghost ov = relation_views(out@);
    assert forall|a: int, b: int| 0 <= a < b < ov.len() implies crate::overlay::lex_lt(#[trigger] ov[a].0, #[trigger] ov[b].0) by {
        assert(ov[a].0 == ids@[a]@);
        assert(ov[b].0 == ids@[b]@);
    }
    assert forall|m: int| 0 <= m < ov.len() implies (#[trigger] ov[m]).1 == first_stance(rv, ov[m].0) by {
        assert(ov[m] == (out@[m].faction@, out@[m].stance@));
    }
    assert forall|x: Seq<char>| #[trigger] pair_targets(ov).contains(x) <==> raw_targets(rv).contains(x) by {
        if exists|m: int| 0 <= m < ov.len() && (#[trigger] ov[m]).0 == x {
            let m = choose|m: int| 0 <= m < ov.len() && (#[trigger] ov[m]).0 == x;
            assert(ov[m].0 == ids@[m]@);
            assert(id_set(ids@).contains(x));
        }
        if exists|j: int| 0 <= j < rv.len() && (#[trigger] rv[j]).0 == x {
            assert(id_set(ids@).contains(x));
            let m = choose|m: int| 0 <= m < ids@.len() && ids@[m]@ == x;
            assert(ov[m].0 == ids@[m]@);
        }
    }
    assert(pair_targets(ov) =~= raw_targets(rv));
    out
}

fn own(s: &str) -> (out: String)
    ensures
        out@ == s@,
{
    string_of(chars_of(s).as_slice())
}

fn copy_all(v: &Vec<String>) -> (out: Vec<String>)
    ensures
        out@.len() == v@.len(),
        forall|k: int| 0 <= k < v@.len() ==> (#[trigger] out@[k])@ == v@[k]@,
        text_views(out@) == text_views(v@),
{
    let mut out: Vec<String> = Vec::new();
    let mut i: usize = 0;
    while i < v.len()
        invariant
            i <= v@.len(),
            out@.len() == i,
            forall|k: int| 0 <= k < i ==> (#[trigger] out@[k])@ == v@[k]@,
        decreases v@.len() - i,
    {
        out.push(own(v[i].as_str()));
        i = i + 1;
    }
    assert(text_views(out@) =~= text_views(v@));
    out
}

pub open spec fn triple_views(v: Seq<(String, String, String)>) -> Seq<(Seq<char>, Seq<char>, Seq<char>)> {
    v.map_values(|t: (String, String, String)| (t.0@, t.1@, t.2@))
}

/// A faction's default stance follows the sign of its `defaultReputation`:
/// friendly when it is positive, neutral when it is zero or negative, and
/// hostile when the faction declares no reputation it can be read as.
pub proof fn lemma_stance_follows_default_reputation(d: FactionDocument, es: Seq<XmlElement>, src: Seq<char>,
    path: Seq<char>, id: Seq<char>)
    requires
        faction_fields(d, es, src, path, id),
    ensures
        d.default_stance@ == "friendly"@ <==> (text_of(es, 0, "defaultReputation"@) matches Some(t)
            && parse_i64_of(t) matches Some(v) && v > 0),
        d.default_stance@ == "neutral"@ <==> (text_of(es, 0, "defaultReputation"@) matches Some(t)
            && parse_i64_of(t) matches Some(v) && v <= 0),
        d.default_stance@ == "hostile"@ <==> !(text_of(es, 0, "defaultReputation"@) matches Some(t)
            && parse_i64_of(t) is Some),
{
    reveal_strlit("friendly");
    reveal_strlit("neutral");
    reveal_strlit("hostile");
    assert("friendly"@ != "neutral"@) by { assert("friendly"@.len() != "neutral"@.len()); }
    assert("friendly"@ != "hostile"@) by { assert("friendly"@.len() != "hostile"@.len()); }
    assert("neutral"@ != "hostile"@) by { assert("neutral"@[0] != "hostile"@[0]); }
}

proof fn lemma_relations_carry_stance(src: Seq<char>, path: Seq<char>, hrefs: Seq<Seq<char>>, stance: Seq<char>)
    ensures
        forall|j: int| 0 <= j < relations_of(src, path, hrefs, stance).len()
            ==> (#[trigger] relations_of(src, path, hrefs, stance)[j]).1 == stance,
    decreases hrefs.len(),
{
    if hrefs.len() > 0 {
        lemma_relations_carry_stance(src, path, hrefs.drop_last(), stance);
        let rest = relations_of(src, path, hrefs.drop_last(), stance);
        let all = relations_of(src, path, hrefs, stance);
        assert forall|j: int| 0 <= j < all.len() implies (#[trigger] all[j]).1 == stance by {
            if j < rest.len() {
                assert(all[j] == rest[j]);
            }
        }
    }
}

proof fn lemma_first_stance_split(a: Seq<(Seq<char>, Seq<char>, Seq<char>)>, b: Seq<(Seq<char>, Seq<char>, Seq<char>)>,
    x: Seq<char>, st: Seq<char>)
    requires
        forall|j: int| 0 <= j < a.len() ==> (#[trigger] a[j]).1 == st,
    ensures
        (exists|j: int| 0 <= j < a.len() && (#[trigger] a[j]).0 == x) ==> first_stance(a + b, x) == st,
        !(exists|j: int| 0 <= j < a.len() && (#[trigger] a[j]).0 == x) ==> first_stance(a + b, x) == first_stance(b, x),
    decreases a.len(),
{
    if a.len() > 0 {
        assert((a + b).drop_first() =~= a.drop_first() + b);
        let t = a.drop_first();
        assert forall|j: int| 0 <= j < t.len() implies (#[trigger] t[j]).1 == st by {
            assert(t[j] == a[j + 1]);
        }
        lemma_first_stance_split(t, b, x, st);
        if a[0].0 != x {
            if exists|j: int| 0 <= j < a.len() && (#[trigger] a[j]).0 == x {
                let j = choose|j: int| 0 <= j < a.len() && (#[trigger] a[j]).0 == x;
                assert(t[j - 1] == a[j]);
            }
            if exists|j: int| 0 <= j < t.len() && (#[trigger] t[j]).0 == x {
                let j = choose|j: int| 0 <= j < t.len() && (#[trigger] t[j]).0 == x;
                assert(a[j + 1] == t[j]);
            }
        }
    } else {
        assert(a + b =~= b);
    }
}

/// Every relation a faction keeps is friendly when its target is named among
/// the faction's friends and neutral otherwise: a target named in both
/// lists counts as a friend.
pub proof fn lemma_friends_outrank_neutrals(d: FactionDocument, es: Seq<XmlElement>, src: Seq<char>,
    path: Seq<char>, id: Seq<char>)
    requires
        faction_fields(d, es, src, path, id),
    ensures
        forall|k: int| 0 <= k < d.relations@.len() ==> {
            let friends = relations_of(src, path, listed_hrefs(es, 0, "friends"@), "friendly"@);
            let x = (#[trigger] d.relations@[k]).faction@;
            &&& (exists|j: int| 0 <= j < friends.len() && (#[trigger] friends[j]).0 == x) ==> d.relations@[k].stance@ == "friendly"@
            &&& !(exists|j: int| 0 <= j < friends.len() && (#[trigger] friends[j]).0 == x) ==> d.relations@[k].stance@ == "neutral"@
        },
{
    let friends = relations_of(src, path, listed_hrefs(es, 0, "friends"@), "friendly"@);
    let neutrals = relations_of(src, path, listed_hrefs(es, 0, "neutrals"@), "neutral"@);
    let raw = raw_relations(es, src, path);
    let out = relation_views(d.relations@);
    lemma_relations_carry_stance(src, path, listed_hrefs(es, 0, "friends"@), "friendly"@);
    lemma_relations_carry_stance(src, path, listed_hrefs(es, 0, "neutrals"@), "neutral"@);
    assert forall|k: int| 0 <= k < d.relations@.len() implies {
        let x = (#[trigger] d.relations@[k]).faction@;
        &&& (exists|j: int| 0 <= j < friends.len() && (#[trigger] friends[j]).0 == x) ==> d.relations@[k].stance@ == "friendly"@
        &&& !(exists|j: int| 0 <= j < friends.len() && (#[trigger] friends[j]).0 == x) ==> d.relations@[k].stance@ == "neutral"@
    } by {
        let x = d.relations@[k].faction@;
        assert(out[k] == (x, d.relations@[k].stance@));
        assert(out[k].1 == first_stance(raw, out[k].0));
        lemma_first_stance_split(friends, neutrals, x, "friendly"@);
        if !(exists|j: int| 0 <= j < friends.len() && (#[trigger] friends[j]).0 == x) {
            assert(pair_targets(out).contains(x));
            assert(raw_targets(raw).contains(x));
            let j = choose|j: int| 0 <= j < raw.len() && (#[trigger] raw[j]).0 == x;
            if j < friends.len() {
                assert(raw[j] == friends[j]);
            } else {
                assert(raw[j] == neutrals[j - friends.len()]);
                lemma_first_stance_uniform(neutrals, x, "neutral"@, j - friends.len());
            }
        }
    }
}

proof fn lemma_first_stance_uniform(a: Seq<(Seq<char>, Seq<char>, Seq<char>)>, x: Seq<char>, st: Seq<char>, j: int)
    requires
        forall|i: int| 0 <= i < a.len() ==> (#[trigger] a[i]).1 == st,
        0 <= j < a.len(),
        a[j].0 == x,
    ensures
        first_stance(a, x) == st,
    decreases a.len(),
{
    if a[0].0 != x {
        let t = a.drop_first();
        assert forall|i: int| 0 <= i < t.len() implies (#[trigger] t[i]).1 == st by {
            assert(t[i] == a[i + 1]);
        }
        assert(t[j - 1] == a[j]);
        lemma_first_stance_uniform(t, x, st, j - 1);
    }
}

} // verus!
