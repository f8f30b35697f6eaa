//! A loot table's tree from its parsed `<table>` element: `LootTableAnd` and
//! `LootTableOr` containers pairing each entry with a chance, single-item
//! leaves naming the item they grant, and money leaves, each leaf with its
//! count range. Chances stay the text the document holds; reading them as
//! numbers is left to where the tree is written.

use vstd::prelude::*;
use crate::mobkind::ref_view;
use crate::model::{Provenance, ResourceRef, resource_ref};
use crate::overlay::{Doc, DocView, entries_view};
use crate::reference::{canonical_id_of, canonical_id_from_source_path, opt_text};
use crate::xml::{extra_fields_of, str_views};
use crate::reference::href_id_of;
use crate::script::parse_i64_of;
use crate::text::{chars_of, string_of, split, split_vec, lemma_split_nonempty, trim, trim_vec, push_str, eq_str};
use crate::xml::{XmlDoc, XmlElement, tree_order, attr_of, child_of, named_children, text_of, href_of, opt_string,
    lemma_named_children_bound};

verus! {

/// One node of an extracted loot tree.
#[derive(Debug)]
pub enum LootTree {
    Container { node: String, entries: Vec<LootTree>, chances: Vec<String> },
    SingleItem { item: ResourceRef, min_number: i64, max_number: i64 },
    Money { min_number: i64, max_number: i64 },
}

/// A loot tree as plain values.
pub enum LootView {
    Container(Seq<char>, Seq<LootView>, Seq<Seq<char>>),
    SingleItem((Option<Seq<char>>, Seq<char>), i64, i64),
    Money(i64, i64),
}

pub open spec fn tree_view(t: LootTree) -> LootView
    decreases t,
{
    match t {
        LootTree::Container { node, entries, chances } => {
            LootView::Container(node@, trees_view(entries@), chances@.map_values(|c: String| c@))
        },
        LootTree::SingleItem { item, min_number, max_number } => LootView::SingleItem(ref_view(item), min_number, max_number),
        LootTree::Money { min_number, max_number } => LootView::Money(min_number, max_number),
    }
}

pub open spec fn trees_view(ts: Seq<LootTree>) -> Seq<LootView>
    decreases ts,
{
    if ts.len() == 0 { Seq::empty() } else { trees_view(ts.drop_last()).push(tree_view(ts.last())) }
}

/// Why a loot tree could not be read.
#[derive(Debug)]
pub enum LootError {
    /// An element with no `type` attribute.
    NoType { element: String },
    /// A chance with no text.
    NoChanceText { kind: String },
    /// A container whose entries and chances differ in number.
    CountMismatch { kind: String, entries: usize, chances: usize },
    NoEntries { kind: String },
    /// A single-item leaf with no `item` href.
    NoItem,
    /// A leaf without this count.
    NoCount { field: String },
    UnknownType { kind: String },
}

/// A refusal as plain values.
pub enum LootFailure {
    NoType(Seq<char>),
    NoChanceText(Seq<char>),
    CountMismatch(Seq<char>, nat, nat),
    NoEntries(Seq<char>),
    NoItem,
    NoCount(Seq<char>),
    UnknownType(Seq<char>),
}

pub open spec fn loot_failure_of(e: LootError) -> LootFailure {
    match e {
        LootError::NoType { element } => LootFailure::NoType(element@),
        LootError::NoChanceText { kind } => LootFailure::NoChanceText(kind@),
        LootError::CountMismatch { kind, entries, chances } => LootFailure::CountMismatch(kind@, entries as nat, chances as nat),
        LootError::NoEntries { kind } => LootFailure::NoEntries(kind@),
        LootError::NoItem => LootFailure::NoItem,
        LootError::NoCount { field } => LootFailure::NoCount(field@),
        LootError::UnknownType { kind } => LootFailure::UnknownType(kind@),
    }
}

/// The part of a type name after its last dot.
pub open spec fn type_tail(ty: Seq<char>) -> Seq<char> {
    split(ty, '.').last()
}

/// The `Item` children of `node`'s first child named `group`.
pub open spec fn group_items(es: Seq<XmlElement>, node: int, group: Seq<char>) -> Seq<int> {
    match child_of(es, node, group) {
        Some(p) => named_children(es, p, "Item"@, es.len() as int),
        None => Seq::empty(),
    }
}

/// The trimmed text of each chance, or the kind of the container whose
/// first chance without text is refused.
pub open spec fn chance_texts(es: Seq<XmlElement>, cs: Seq<int>, k: int) -> Option<Seq<Seq<char>>>
    decreases k,
{
    if k <= 0 {
        Some(Seq::empty())
    } else {
        match chance_texts(es, cs, k - 1) {
            None => None,
            Some(ts) => match es[cs[k - 1]].text {
                Some(t) => Some(ts.push(trim(t@))),
                None => None,
            },
        }
    }
}

/// A leaf's count, read from its child of that name.
pub open spec fn count_of(es: Seq<XmlElement>, n: int, field: Seq<char>) -> Option<i64> {
    match text_of(es, n, field) {
        Some(t) => parse_i64_of(t),
        None => None,
    }
}

/// The tree element `n` describes, or the first rule it breaks in
/// document order.
pub open spec fn loot_parse(es: Seq<XmlElement>, n: int) -> Result<LootView, LootFailure>
    decreases es.len() - n, 1int, 0int,
{
    if !(0 <= n < es.len()) {
        Err(LootFailure::NoType(Seq::empty()))
    } else {
        match attr_of(es[n].attributes@, "type"@) {
            None => Err(LootFailure::NoType(es[n].name@)),
            Some(ty) => {
                let tail = type_tail(ty);
                if tail == "LootTableAnd"@ || tail == "LootTableOr"@ {
                    let entries = group_items(es, n, "entries"@);
                    let chances = group_items(es, n, "chances"@);
                    let node = if tail == "LootTableAnd"@ { "and"@ } else { "or"@ };
                    match chance_texts(es, chances, chances.len() as int) {
                        None => Err(LootFailure::NoChanceText(tail)),
                        Some(ts) => if entries.len() != chances.len() {
                            Err(LootFailure::CountMismatch(tail, entries.len(), chances.len()))
                        } else if entries.len() == 0 {
                            Err(LootFailure::NoEntries(tail))
                        } else {
                            match parse_list(es, n, entries, entries.len() as int) {
                                Err(f) => Err(f),
                                Ok(vs) => Ok(LootView::Container(node, vs, ts)),
                            }
                        },
                    }
                } else if tail == "LootTableSingleItem"@ {
                    match href_of(es, n, "item"@) {
                        None => Err(LootFailure::NoItem),
                        Some(h) => match count_of(es, n, "minNumber"@) {
                            None => Err(LootFailure::NoCount("minNumber"@)),
                            Some(lo) => match count_of(es, n, "maxNumber"@) {
                                None => Err(LootFailure::NoCount("maxNumber"@)),
                                Some(hi) => Ok(LootView::SingleItem((href_id_of(h), h), lo, hi)),
                            },
                        },
                    }
                } else if tail == "LootTableMoney"@ {
                    match count_of(es, n, "minNumber"@) {
                        None => Err(LootFailure::NoCount("minNumber"@)),
                        Some(lo) => match count_of(es, n, "maxNumber"@) {
                            None => Err(LootFailure::NoCount("maxNumber"@)),
                            Some(hi) => Ok(LootView::Money(lo, hi)),
                        },
                    }
                } else {
                    Err(LootFailure::UnknownType(tail))
                }
            },
        }
    }
}

/// A leaf read from element `n` carries the counts its own children hold:
/// its `min_number` is the integer text of its `minNumber` child and its
/// `max_number` that of its `maxNumber` child; a single-item leaf names the
/// item its `item` child's href names.
pub proof fn lemma_leaf_counts_come_from_their_children(es: Seq<XmlElement>, n: int)
    ensures
        loot_parse(es, n) matches Ok(LootView::SingleItem(item, lo, hi)) ==> {
            &&& text_of(es, n, "minNumber"@) matches Some(t) && parse_i64_of(t) == Some(lo)
            &&& text_of(es, n, "maxNumber"@) matches Some(t) && parse_i64_of(t) == Some(hi)
            &&& href_of(es, n, "item"@) == Some(item.1)
        },
        loot_parse(es, n) matches Ok(LootView::Money(lo, hi)) ==> {
            &&& text_of(es, n, "minNumber"@) matches Some(t) && parse_i64_of(t) == Some(lo)
            &&& text_of(es, n, "maxNumber"@) matches Some(t) && parse_i64_of(t) == Some(hi)
        },
{
}

/// The trimmed text of element `c`, empty where it holds none.
pub open spec fn chance_text(es: Seq<XmlElement>, c: int) -> Seq<char> {
    match es[c].text {
        Some(t) => trim(t@),
        None => Seq::empty(),
    }
}

proof fn lemma_chance_texts(es: Seq<XmlElement>, cs: Seq<int>, k: int)
    requires
        0 <= k <= cs.len(),
    ensures
        chance_texts(es, cs, k) is Some ==> chance_texts(es, cs, k)->0.len() == k,
        chance_texts(es, cs, k) is Some ==> forall|i: int| 0 <= i < k
            ==> #[trigger] chance_texts(es, cs, k)->0[i] == chance_text(es, cs[i]),
    decreases k,
{
    if k > 0 {
        lemma_chance_texts(es, cs, k - 1);
        match chance_texts(es, cs, k - 1) {
            None => {},
            Some(prev) => {
                match es[cs[k - 1]].text {
                    None => {},
                    Some(t) => {
                        let ts = prev.push(trim(t@));
                        assert(chance_texts(es, cs, k) == Some(ts));
                        assert forall|i: int| 0 <= i < k implies #[trigger] ts[i] == chance_text(es, cs[i]) by {
                            if i < k - 1 {
                                assert(ts[i] == prev[i]);
                                assert(chance_texts(es, cs, k - 1)->0[i] == chance_text(es, cs[i]));
                            }
                        }
                        assert(chance_texts(es, cs, k)->0 == ts);
                    },
                }
            },
        }
    }
}

/// A container read from element `n` is an `and` node exactly when its type
/// ends in `LootTableAnd` and an `or` node exactly when it ends in
/// `LootTableOr`; it holds one chance per entry, at least one, each chance
/// the trimmed text of the matching `chances` item.
pub proof fn lemma_container_shape(es: Seq<XmlElement>, n: int)
    ensures
        loot_parse(es, n) matches Ok(LootView::Container(node, vs, ts)) ==> {
            &&& attr_of(es[n].attributes@, "type"@) matches Some(ty)
            &&& (node == "and"@ <==> type_tail(ty) == "LootTableAnd"@)
            &&& (node == "or"@ <==> type_tail(ty) == "LootTableOr"@)
            &&& ts.len() == group_items(es, n, "chances"@).len()
            &&& ts.len() == group_items(es, n, "entries"@).len()
            &&& ts.len() > 0
            &&& forall|i: int| 0 <= i < ts.len() ==> #[trigger] ts[i] == chance_text(es, group_items(es, n, "chances"@)[i])
        },
{
    reveal_strlit("and");
    reveal_strlit("or");
    reveal_strlit("LootTableAnd");
    reveal_strlit("LootTableOr");
    if 0 <= n < es.len() {
        let cs = group_items(es, n, "chances"@);
        lemma_chance_texts(es, cs, cs.len() as int);
        assert("and"@ != "or"@) by {
            assert("and"@.len() != "or"@.len());
        }
        assert("LootTableAnd"@ != "LootTableOr"@) by {
            assert("LootTableAnd"@.len() != "LootTableOr"@.len());
        }
    }
}

/// The trees of the first `k` of `kids`, elements below `n`, in order.
pub open spec fn parse_list(es: Seq<XmlElement>, n: int, kids: Seq<int>, k: int) -> Result<Seq<LootView>, LootFailure>
    decreases es.len() - n, 0int, k,
{
    if k <= 0 {
        Ok(Seq::empty())
    } else {
        match parse_list(es, n, kids, k - 1) {
            Err(f) => Err(f),
            Ok(vs) => if n < kids[k - 1] && kids[k - 1] < es.len() {
                match loot_parse(es, kids[k - 1]) {
                    Err(f) => Err(f),
                    Ok(v) => Ok(vs.push(v)),
                }
            } else {
                Ok(vs)
            },
        }
    }
}


proof fn lemma_named_are_children(es: Seq<XmlElement>, p: int, name: Seq<char>, upto: int)
    ensures
        forall|i: int| 0 <= i < named_children(es, p, name, upto).len()
            ==> crate::xml::is_child(es, p, #[trigger] named_children(es, p, name, upto)[i]),
    decreases upto,
{
    if upto > 0 {
        lemma_named_are_children(es, p, name, upto - 1);
        let prev = named_children(es, p, name, upto - 1);
        let all = named_children(es, p, name, upto);
        assert forall|i: int| 0 <= i < all.len() implies crate::xml::is_child(es, p, #[trigger] all[i]) by {
            if i < prev.len() {
                assert(all[i] == prev[i]);
            }
        }
    }
}

/// The items of a group below `n` stand after `n` in document order.
proof fn lemma_group_below(es: Seq<XmlElement>, n: int, group: Seq<char>)
    requires
        tree_order(es),
        0 <= n < es.len(),
        es.len() <= usize::MAX,
    ensures
        forall|i: int| 0 <= i < group_items(es, n, group).len()
            ==> n < #[trigger] group_items(es, n, group)[i] < es.len(),
{
    match child_of(es, n, group) {
        Some(p) => {
            assert(crate::xml::first_named(es, n, group, p));
            assert(es[p].parent == Some(n as usize));
            assert(p != 0);
            assert(es[p].parent matches Some(q) && q < p);
            assert((n as usize) as int == n);
            assert(n < p);
            lemma_named_are_children(es, p, "Item"@, es.len() as int);
            let g = group_items(es, n, group);
            assert forall|i: int| 0 <= i < g.len() implies n < #[trigger] g[i] < es.len() by {
                assert(crate::xml::is_child(es, p, g[i]));
                assert(es[g[i]].parent == Some(p as usize));
                assert(g[i] != 0);
                assert(es[g[i]].parent matches Some(q) && q < g[i]);
                assert((p as usize) as int == p);
            }
        },
        None => {},
    }
}

fn group_exec(doc: &XmlDoc, n: usize, group: &str) -> (r: Vec<usize>)
    requires
        n < doc@.len(),
    ensures
        r@.map_values(|j: usize| j as int) == group_items(doc@, n as int, group@),
{
    match doc.child(n, group) {
        Some(p) => {
            proof { reveal_strlit("Item"); }
            doc.children(p, "Item")
        },
        None => {
            let v: Vec<usize> = Vec::new();
            assert(v@.map_values(|j: usize| j as int) =~= Seq::<int>::empty());
            v
        },
    }
}

fn own(s: &str) -> (out: String)
    ensures
        out@ == s@,
{
    string_of(chars_of(s).as_slice())
}

/// Reads the loot tree element `n` of a parsed document describes.
pub fn parse_loot_tree(doc: &XmlDoc, n: usize) -> (r: Result<LootTree, LootError>)
    requires
        n < doc@.len(),
    ensures
        match loot_parse(doc@, n as int) {
            Ok(v) => r matches Ok(t) && tree_view(t) == v,
            Err(f) => r matches Err(e) && loot_failure_of(e) == f,
        },
    decreases doc@.len() - n, 1int, 0int,
{
    let len = doc.len();
    let ghost es = doc@;
    let ty = match doc.attribute(n, "type") {
        Some(t) => t,
        None => {
            return Err(LootError::NoType { element: own(doc.element(n).name.as_str()) });
        },
    };
    let tychars = chars_of(ty.as_str());
    let parts = split_vec(tychars.as_slice(), '.');
    proof { lemma_split_nonempty(ty@, '.'); }
    let tail_chars = crate::text::copy_chars(parts[parts.len() - 1].as_slice());
    let tail = string_of(tail_chars.as_slice());
    assert(tail@ == type_tail(ty@));
    let is_and = eq_str(tail_chars.as_slice(), "LootTableAnd");
    let is_or = eq_str(tail_chars.as_slice(), "LootTableOr");
    if is_and || is_or {
        let entries = group_exec(doc, n, "entries");
        let chances = group_exec(doc, n, "chances");
        let ghost ev = entries@.map_values(|j: usize| j as int);
        let ghost cv = chances@.map_values(|j: usize| j as int);
        proof {
            lemma_group_below(es, n as int, "entries"@);
            lemma_group_below(es, n as int, "chances"@);
        }
        let mut texts: Vec<String> = Vec::new();
        let mut c: usize = 0;
        while c < chances.len()
            invariant
                c <= chances@.len(),
                es == doc@,
                attr_of(es[n as int].attributes@, "type"@) == Some(ty@),
                tail@ == type_tail(ty@),
                type_tail(ty@) == "LootTableAnd"@ || type_tail(ty@) == "LootTableOr"@,
                is_and == (type_tail(ty@) == "LootTableAnd"@),
                ev == entries@.map_values(|j: usize| j as int),
                ev == group_items(es, n as int, "entries"@),
                cv == chances@.map_values(|j: usize| j as int),
                cv == group_items(es, n as int, "chances"@),
                n < es.len(),
                forall|i: int| 0 <= i < cv.len() ==> n < #[trigger] cv[i] < es.len(),
                chance_texts(es, cv, c as int) == Some(texts@.map_values(|t: String| t@)),
            decreases chances@.len() - c,
        {
            assert(cv[c as int] == chances@[c as int] as int);
            let el = doc.element(chances[c]);
            match &el.text {
                Some(t) => {
                    let trimmed = trim_vec(chars_of(t.as_str()).as_slice());
                    let ghost before = texts@.map_values(|t: String| t@);
                    texts.push(string_of(trimmed.as_slice()));
                    assert(texts@.map_values(|t: String| t@) =~= before.push(trim(t@)));
                },
                None => {
                    proof { lemma_chances_stay_none(es, cv, c as int + 1, cv.len() as int); }
                    return Err(LootError::NoChanceText { kind: tail });
                },
            }
            c = c + 1;
        }
        if entries.len() != chances.len() {
            return Err(LootError::CountMismatch { kind: tail, entries: entries.len(), chances: chances.len() });
        }
        if entries.len() == 0 {
            return Err(LootError::NoEntries { kind: tail });
        }
        let mut out: Vec<LootTree> = Vec::new();
        let mut k: usize = 0;
        while k < entries.len()
            invariant
                k <= entries@.len(),
                es == doc@,
                attr_of(es[n as int].attributes@, "type"@) == Some(ty@),
                tail@ == type_tail(ty@),
                type_tail(ty@) == "LootTableAnd"@ || type_tail(ty@) == "LootTableOr"@,
                is_and == (type_tail(ty@) == "LootTableAnd"@),
                ev == entries@.map_values(|j: usize| j as int),
                ev == group_items(es, n as int, "entries"@),
                n < es.len(),
                cv == group_items(es, n as int, "chances"@),
                ev.len() == cv.len(),
                ev.len() > 0,
                chance_texts(es, cv, cv.len() as int) == Some(texts@.map_values(|t: String| t@)),
                forall|i: int| 0 <= i < ev.len() ==> n < #[trigger] ev[i] < es.len(),
                parse_list(es, n as int, ev, k as int) == Ok::<Seq<LootView>, LootFailure>(trees_view(out@)),
            decreases entries@.len() - k,
        {
            assert(ev[k as int] == entries@[k as int] as int);
            let child = parse_loot_tree(doc, entries[k]);
            match child {
                Ok(t) => {
                    let ghost before = out@;
                    out.push(t);
                    assert(out@.drop_last() =~= before);
                },
                Err(e) => {
                    proof { lemma_list_stays(es, n as int, ev, k as int + 1, ev.len() as int); }
                    return Err(e);
                },
            }
            k = k + 1;
        }
        proof { reveal_strlit("and"); reveal_strlit("or"); }
        let node = if is_and { own("and") } else { own("or") };
        return Ok(LootTree::Container { node, entries: out, chances: texts });
    }
    if eq_str(tail_chars.as_slice(), "LootTableSingleItem") {
        let item = match doc.href(n, "item") {
            Some(h) => h,
            None => {
                return Err(LootError::NoItem);
            },
        };
        let lo = match doc.i64_value(n, "minNumber") {
            Some(v) => v,
            None => {
                return Err(LootError::NoCount { field: own("minNumber") });
            },
        };
        let hi = match doc.i64_value(n, "maxNumber") {
            Some(v) => v,
            None => {
                return Err(LootError::NoCount { field: own("maxNumber") });
            },
        };
        return Ok(LootTree::SingleItem { item: resource_ref(item.as_str()), min_number: lo, max_number: hi });
    }
    if eq_str(tail_chars.as_slice(), "LootTableMoney") {
        let lo = match doc.i64_value(n, "minNumber") {
            Some(v) => v,
            None => {
                return Err(LootError::NoCount { field: own("minNumber") });
            },
        };
        let hi = match doc.i64_value(n, "maxNumber") {
            Some(v) => v,
            None => {
                return Err(LootError::NoCount { field: own("maxNumber") });
            },
        };
        return Ok(LootTree::Money { min_number: lo, max_number: hi });
    }
    Err(LootError::UnknownType { kind: tail })
}

proof fn lemma_chances_stay_none(es: Seq<XmlElement>, cs: Seq<int>, m: int, n: int)
    requires
        0 <= m <= n,
        chance_texts(es, cs, m) is None,
    ensures
        chance_texts(es, cs, n) is None,
    decreases n - m,
{
    if m < n {
        lemma_chances_stay_none(es, cs, m, n - 1);
    }
}

proof fn lemma_list_stays(es: Seq<XmlElement>, n: int, kids: Seq<int>, m: int, k: int)
    requires
        0 <= m <= k,
        parse_list(es, n, kids, m) is Err,
    ensures
        parse_list(es, n, kids, k) == parse_list(es, n, kids, m),
    decreases k - m,
{
    if m < k {
        lemma_list_stays(es, n, kids, m, k - 1);
    }
}


// ----- one loot table document ----------------------------------------------------------

/// The root element of every loot table document.
pub open spec fn loot_table_tag() -> Seq<char> {
    "gameMechanics.constructor.schemes.item.LootTableResource"@
}

/// One loot table document read from its file.
#[derive(Debug)]
pub struct ExtractedLootTable {
    pub id: String,
    pub source_type: String,
    pub resource_id: Option<u64>,
    pub root: LootTree,
    /// Unmapped fields, by name.
    pub extra: Vec<(String, Doc)>,
    pub source: Provenance,
}

/// Why a loot table file could not be read.
#[derive(Debug)]
pub enum LootTableError {
    NotALootTable { relative: String, tag: String },
    NoId { relative: String },
    NoTable { relative: String },
    Tree { relative: String, error: LootError },
}

/// What reading a loot table file gives: its id, its tree from `<table>`
/// and what else it says; or why it is refused, checked in that order.
pub open spec fn loot_table_read(relative: Seq<char>, es: Seq<XmlElement>, source: Provenance,
    r: Result<ExtractedLootTable, LootTableError>) -> bool
{
    if es[0].name@ != loot_table_tag() {
        r matches Err(LootTableError::NotALootTable { relative: rr, tag }) && rr@ == relative && tag@ == es[0].name@
    } else {
        match canonical_id_of(relative) {
            None => r matches Err(LootTableError::NoId { relative: rr }) && rr@ == relative,
            Some(id) => match child_of(es, 0, "table"@) {
                None => r matches Err(LootTableError::NoTable { relative: rr }) && rr@ == relative,
                Some(t) => match loot_parse(es, t) {
                    Err(f) => r matches Err(LootTableError::Tree { relative: rr, error }) && rr@ == relative
                        && loot_failure_of(error) == f,
                    Ok(v) => r matches Ok(d) && {
                        &&& d.id@ == id
                        &&& d.source_type@ == es[0].name@
                        &&& d.resource_id == crate::mobkind::resource_id_of(es)
                        &&& tree_view(d.root) == v
                        &&& entries_view(d.extra@) == extra_fields_of(es, 0, seq!["Header"@, "table"@])
                        &&& d.source == source
                    },
                },
            },
        }
    }
}

/// Reads one loot table document: a `LootTableResource` whose path mints
/// an id and whose `<table>` holds a well-formed tree.
pub fn loot_table_document(relative: &str, doc: &XmlDoc, source: Provenance) -> (r: Result<ExtractedLootTable, LootTableError>)
    ensures
        loot_table_read(relative@, doc@, source, r),
{
    let n = doc.len();
    let tag = doc.element(0).name.as_str();
    if !eq_str(chars_of(tag).as_slice(), "gameMechanics.constructor.schemes.item.LootTableResource") {
        return Err(LootTableError::NotALootTable { relative: own(relative), tag: own(tag) });
    }
    let id = match canonical_id_from_source_path(relative) {
        Some(id) => id,
        None => {
            return Err(LootTableError::NoId { relative: own(relative) });
        },
    };
    let t = match doc.child(0, "table") {
        Some(t) => t,
        None => {
            return Err(LootTableError::NoTable { relative: own(relative) });
        },
    };
    let root = match parse_loot_tree(doc, t) {
        Ok(root) => root,
        Err(error) => {
            return Err(LootTableError::Tree { relative: own(relative), error });
        },
    };
    let mut excluded: Vec<&str> = Vec::new();
    excluded.push("Header");
    excluded.push("table");
    assert(str_views(excluded@) =~= seq!["Header"@, "table"@]);
    Ok(ExtractedLootTable {
        id,
        source_type: own(tag),
        resource_id: doc.resource_id(0),
        root,
        extra: doc.extra_fields(0, excluded.as_slice()),
        source,
    })
}

/// The item hrefs a tree grants, in document order.
pub open spec fn granted_hrefs(t: LootTree) -> Seq<Seq<char>>
    decreases t,
{
    match t {
        LootTree::Container { entries, .. } => granted_list(entries@),
        LootTree::SingleItem { item, .. } => seq![item.href@],
        LootTree::Money { .. } => Seq::empty(),
    }
}

pub open spec fn granted_list(ts: Seq<LootTree>) -> Seq<Seq<char>>
    decreases ts,
{
    if ts.len() == 0 { Seq::empty() } else { granted_list(ts.drop_last()) + granted_hrefs(ts.last()) }
}

/// Adds the item hrefs a tree grants to `out`, in document order.
pub fn collect_granted(t: &LootTree, out: &mut Vec<String>)
    ensures
        final(out)@.map_values(|s: String| s@) == old(out)@.map_values(|s: String| s@) + granted_hrefs(*t),
    decreases t,
{
    let ghost start = out@.map_values(|s: String| s@);
    match t {
        LootTree::Container { entries, .. } => {
            let mut i: usize = 0;
            while i < entries.len()
                invariant
                    i <= entries@.len(),
                    (*t) is Container,
                    *entries == (*t)->entries,
                    out@.map_values(|s: String| s@) == start + granted_list(entries@.take(i as int)),
                decreases entries@.len() - i,
            {
                proof {
                    assert(*entries == (*t)->entries);
                    assert(decreases_to!(*t => (*t)->entries));
                    vstd::std_specs::vec::axiom_vec_index_decreases(*entries, i as int);
                }
                collect_granted(&entries[i], out);
                assert(entries@.take(i + 1).drop_last() =~= entries@.take(i as int));
                assert(entries@.take(i + 1).last() == entries@[i as int]);
                i = i + 1;
            }
            assert(entries@.take(i as int) =~= entries@);
        },
        LootTree::SingleItem { item, .. } => {
            let ghost before = out@;
            out.push(own(item.href.as_str()));
            assert(out@.map_values(|s: String| s@) =~= start + seq![item.href@]);
        },
        LootTree::Money { .. } => {
            assert(out@.map_values(|s: String| s@) =~= start + Seq::<Seq<char>>::empty());
        },
    }
}


// ----- what a tree holds ----------------------------------------------------------------

/// How many nodes a tree has.
pub open spec fn node_count(t: LootTree) -> nat
    decreases t,
{
    match t {
        LootTree::Container { entries, .. } => 1 + list_count(entries@),
        _ => 1,
    }
}

pub open spec fn list_count(ts: Seq<LootTree>) -> nat
    decreases ts,
{
    if ts.len() == 0 { 0 } else { list_count(ts.drop_last()) + node_count(ts.last()) }
}

/// The hrefs of the single-item leaves whose item no id of `index` names.
pub open spec fn dangling_of(t: LootTree, index: Set<Seq<char>>) -> Set<Seq<char>>
    decreases t,
{
    match t {
        LootTree::Container { entries, .. } => dangling_list(entries@, index),
        LootTree::SingleItem { item, .. } => match item.id {
            Some(id) => if index.contains(id@) { Set::empty() } else { set![item.href@] },
            None => set![item.href@],
        },
        LootTree::Money { .. } => Set::empty(),
    }
}

pub open spec fn dangling_list(ts: Seq<LootTree>, index: Set<Seq<char>>) -> Set<Seq<char>>
    decreases ts,
{
    if ts.len() == 0 { Set::empty() } else { dangling_list(ts.drop_last(), index) + dangling_of(ts.last(), index) }
}

/// Counts a tree's nodes, held at `usize::MAX`.
pub fn count_nodes(t: &LootTree) -> (n: usize)
    ensures
        n == if node_count(*t) > usize::MAX { usize::MAX as nat } else { node_count(*t) },
    decreases t,
{
    match t {
        LootTree::Container { entries, .. } => {
            let mut total: usize = 1;
            let mut i: usize = 0;
            while i < entries.len()
                invariant
                    i <= entries@.len(),
                    (*t) is Container,
                    *entries == (*t)->entries,
                    total == if 1 + list_count(entries@.take(i as int)) > usize::MAX { usize::MAX as nat }
                        else { 1 + list_count(entries@.take(i as int)) },
                decreases entries@.len() - i,
            {
                proof {
                    assert(decreases_to!(*t => (*t)->entries));
                    vstd::std_specs::vec::axiom_vec_index_decreases(*entries, i as int);
                }
                let c = count_nodes(&entries[i]);
                assert(entries@.take(i + 1).drop_last() =~= entries@.take(i as int));
                assert(entries@.take(i + 1).last() == entries@[i as int]);
                total = total.saturating_add(c);
                i = i + 1;
            }
            assert(entries@.take(i as int) =~= entries@);
            total
        },
        _ => 1,
    }
}

/// Adds to `dangling` the hrefs of the leaves whose item `index` lacks.
pub fn collect_dangling(t: &LootTree, index: &Vec<String>, dangling: &mut Vec<String>)
    requires
        crate::reach::ascending(old(dangling)@),
    ensures
        crate::reach::ascending(final(dangling)@),
        crate::reach::id_set(final(dangling)@) == crate::reach::id_set(old(dangling)@) + dangling_of(*t, crate::reach::id_set(index@)),
    decreases t,
{
    let ghost ix = crate::reach::id_set(index@);
    let ghost start = crate::reach::id_set(dangling@);
    match t {
        LootTree::Container { entries, .. } => {
            let mut i: usize = 0;
            while i < entries.len()
                invariant
                    i <= entries@.len(),
                    (*t) is Container,
                    *entries == (*t)->entries,
                    ix == crate::reach::id_set(index@),
                    crate::reach::ascending(dangling@),
                    crate::reach::id_set(dangling@) == start + dangling_list(entries@.take(i as int), ix),
                decreases entries@.len() - i,
            {
                proof {
                    assert(decreases_to!(*t => (*t)->entries));
                    vstd::std_specs::vec::axiom_vec_index_decreases(*entries, i as int);
                }
                collect_dangling(&entries[i], index, dangling);
                assert(entries@.take(i + 1).drop_last() =~= entries@.take(i as int));
                assert(entries@.take(i + 1).last() == entries@[i as int]);
                assert(crate::reach::id_set(dangling@) =~= start + dangling_list(entries@.take(i + 1), ix));
                i = i + 1;
            }
            assert(entries@.take(i as int) =~= entries@);
        },
        LootTree::SingleItem { item, .. } => {
            let known = match &item.id {
                Some(id) => crate::reach::contains_id(index, id.as_str()),
                None => false,
            };
            if known {
                assert(crate::reach::id_set(dangling@) =~= start + dangling_of(*t, ix));
            } else {
                crate::reach::insert_id(dangling, item.href.as_str());
                assert(crate::reach::id_set(dangling@) =~= start + dangling_of(*t, ix));
            }
        },
        LootTree::Money { .. } => {
            assert(crate::reach::id_set(dangling@) =~= start + dangling_of(*t, ix));
        },
    }
}

pub open spec fn loot_failure_text(f: LootFailure) -> Seq<char> {
    match f {
        LootFailure::NoType(e) => e + " has no type attribute"@,
        LootFailure::NoChanceText(k) => "a chance of a "@ + k + " has no text"@,
        LootFailure::CountMismatch(k, e, c) => k + " has "@ + crate::text::decimal(e) + " entries but "@
            + crate::text::decimal(c) + " chances; entries and chances are positionally paired"@,
        LootFailure::NoEntries(k) => k + " has no entries"@,
        LootFailure::NoItem => "single-item node has no item href"@,
        LootFailure::NoCount(f) => "loot node has no <"@ + f + ">"@,
        LootFailure::UnknownType(k) => "unknown loot node type "@ + k,
    }
}

impl LootError {
    /// What the refusal says.
    pub fn message(&self) -> (r: String)
        ensures
            r@ == loot_failure_text(loot_failure_of(*self)),
    {
        let mut out: Vec<char> = Vec::new();
        match self {
            LootError::NoType { element } => {
                push_str(&mut out, element.as_str());
                push_str(&mut out, " has no type attribute");
            },
            LootError::NoChanceText { kind } => {
                push_str(&mut out, "a chance of a ");
                push_str(&mut out, kind.as_str());
                push_str(&mut out, " has no text");
            },
            LootError::CountMismatch { kind, entries, chances } => {
                push_str(&mut out, kind.as_str());
                push_str(&mut out, " has ");
                crate::text::push_decimal(&mut out, *entries as u64);
                push_str(&mut out, " entries but ");
                crate::text::push_decimal(&mut out, *chances as u64);
                push_str(&mut out, " chances; entries and chances are positionally paired");
            },
            LootError::NoEntries { kind } => {
                push_str(&mut out, kind.as_str());
                push_str(&mut out, " has no entries");
            },
            LootError::NoItem => {
                push_str(&mut out, "single-item node has no item href");
            },
            LootError::NoCount { field } => {
                push_str(&mut out, "loot node has no <");
                push_str(&mut out, field.as_str());
                push_str(&mut out, ">");
            },
            LootError::UnknownType { kind } => {
                push_str(&mut out, "unknown loot node type ");
                push_str(&mut out, kind.as_str());
            },
        }
        assert(out@ =~= loot_failure_text(loot_failure_of(*self)));
        string_of(out.as_slice())
    }
}

pub open spec fn loot_table_error_text(e: LootTableError) -> Seq<char> {
    match e {
        LootTableError::NotALootTable { relative, tag } => relative@ + " is a "@ + tag@
            + ", not a gameMechanics.constructor.schemes.item.LootTableResource"@,
        LootTableError::NoId { relative } => "build loot table ID from "@ + relative@,
        LootTableError::NoTable { relative } => relative@ + " carries no <table>"@,
        LootTableError::Tree { relative, error } => "parse loot tree "@ + relative@ + ": "@
            + loot_failure_text(loot_failure_of(error)),
    }
}

impl LootTableError {
    /// What the refusal says.
    pub fn message(&self) -> (r: String)
        ensures
            r@ == loot_table_error_text(*self),
    {
        let mut out: Vec<char> = Vec::new();
        match self {
            LootTableError::NotALootTable { relative, tag } => {
                push_str(&mut out, relative.as_str());
                push_str(&mut out, " is a ");
                push_str(&mut out, tag.as_str());
                push_str(&mut out, ", not a gameMechanics.constructor.schemes.item.LootTableResource");
            },
            LootTableError::NoId { relative } => {
                push_str(&mut out, "build loot table ID from ");
                push_str(&mut out, relative.as_str());
            },
            LootTableError::NoTable { relative } => {
                push_str(&mut out, relative.as_str());
                push_str(&mut out, " carries no <table>");
            },
            LootTableError::Tree { relative, error } => {
                push_str(&mut out, "parse loot tree ");
                push_str(&mut out, relative.as_str());
                push_str(&mut out, ": ");
                let m = error.message();
                push_str(&mut out, m.as_str());
            },
        }
        assert(out@ =~= loot_table_error_text(*self));
        string_of(out.as_slice())
    }
}


// ----- following one loot table to others ------------------------------------------------

/// The loot table paths among `hrefs`, each resolved against the source root
/// and the file that holds it.
pub open spec fn loot_targets(src: Seq<char>, path: Seq<char>, hrefs: Seq<Seq<char>>, n: int) -> Set<Seq<char>>
    decreases n,
{
    if n <= 0 {
        Set::empty()
    } else {
        let before = loot_targets(src, path, hrefs, n - 1);
        match crate::scan::resolve_of(src, path, hrefs[n - 1]) {
            Some(p) => if crate::text::has_prefix(p.1, "World/LootTables/"@) { before.insert(p.1) } else { before },
            None => before,
        }
    }
}

/// The loot tables a loot table document leads to that `seen` does not hold
/// yet, which it then holds: every href in the document that resolves below
/// `World/LootTables/`.
pub fn loot_followups(doc: &XmlDoc, src: &str, path: &str, seen: &mut Vec<String>) -> (fresh: Vec<String>)
    requires
        crate::reach::ascending(old(seen)@),
    ensures
        crate::reach::ascending(final(seen)@),
        crate::reach::ascending(fresh@),
        ({
            let hs = crate::xml::hrefs_within(doc@, 0, doc@.len() as int);
            let t = loot_targets(src@, path@, hs, hs.len() as int);
            &&& crate::reach::id_set(final(seen)@) == crate::reach::id_set(old(seen)@) + t
            &&& crate::reach::id_set(fresh@) == t - crate::reach::id_set(old(seen)@)
        }),
{
    let n = doc.len();
    let hrefs = doc.descendant_hrefs(0);
    let ghost hs = hrefs@.map_values(|h: String| h@);
    let ghost start = crate::reach::id_set(seen@);
    let mut fresh: Vec<String> = Vec::new();
    let mut i: usize = 0;
    proof {
        assert(crate::reach::id_set(fresh@) =~= Set::empty());
        assert(crate::reach::id_set(seen@) =~= start + loot_targets(src@, path@, hs, 0));
        assert(crate::reach::id_set(fresh@) =~= loot_targets(src@, path@, hs, 0) - start);
    }
    while i < hrefs.len()
        invariant
            i <= hrefs@.len(),
            hs == hrefs@.map_values(|h: String| h@),
            crate::reach::ascending(seen@),
            crate::reach::ascending(fresh@),
            crate::reach::id_set(seen@) == start + loot_targets(src@, path@, hs, i as int),
            crate::reach::id_set(fresh@) == loot_targets(src@, path@, hs, i as int) - start,
        decreases hrefs@.len() - i,
    {
        assert(hs[i as int] == hrefs@[i as int]@);
        match crate::scan::resolve_href(src, path, hrefs[i].as_str()) {
            Some((_, target)) => {
                let tc = chars_of(target.as_str());
                if crate::text::starts_with_str(tc.as_slice(), "World/LootTables/") {
                    if !crate::reach::contains_id(seen, target.as_str()) {
                        crate::reach::insert_id(&mut fresh, target.as_str());
                        crate::reach::insert_id(seen, target.as_str());
                    }
                }
            },
            None => {},
        }
        assert(crate::reach::id_set(seen@) =~= start + loot_targets(src@, path@, hs, i + 1));
        assert(crate::reach::id_set(fresh@) =~= loot_targets(src@, path@, hs, i + 1) - start);
        i = i + 1;
    }
    fresh
}

} // verus!
