//! Which zone an authored document belongs to, and what kind of document it
//! is, read from the document itself or, failing that, from its canonical id.

use vstd::prelude::*;
use crate::overlay::{Doc, DocView, doc_view, text_at};
use crate::source::{Layout, LoadOptions};
use crate::text::{chars_of, string_of, eq_str, seq_eq, starts_with_str, has_prefix, slice_range, split, split_vec, lemma_split_nonempty, push_str, push_chars};

verus! {

/// The zone a document names in its own `zone` field, without the `zone.`
/// prefix.
pub open spec fn explicit_zone_of(v: DocView) -> Option<Seq<char>> {
    match text_at(v, "zone"@) {
        Some(z) => if has_prefix(z, "zone."@) { Some(z.skip(5)) } else { None },
        None => None,
    }
}

/// The zone a zone-owned canonical id names: its second dotted segment.
pub open spec fn zone_from_id_of(id: Seq<char>) -> Option<Seq<char>> {
    let parts = split(id, '.');
    let head = parts[0];
    if (head == "zone"@ || head == "spawn"@ || head == "mob"@ || head == "quest"@ || head == "route"@
        || head == "script"@ || head == "trigger"@) && parts.len() > 1 {
        Some(parts[1])
    } else {
        None
    }
}

/// The zone a document belongs to: its explicit `zone`, or else the one its
/// id names.
pub open spec fn target_zone_of(v: DocView, id: Seq<char>) -> Option<Seq<char>> {
    match explicit_zone_of(v) {
        Some(z) => Some(z),
        None => zone_from_id_of(id),
    }
}

fn text_field(value: &Doc, key: &str) -> (r: Option<Vec<char>>)
    ensures
        match r {
            Some(t) => text_at(doc_view(*value), key@) == Some(t@),
            None => text_at(doc_view(*value), key@) is None,
        },
{
    match value.get(key) {
        Some(Doc::Text(t)) => Some(chars_of(t.as_str())),
        _ => None,
    }
}

/// The zone a document names in its own `zone` field.
pub fn explicit_zone(value: &Doc) -> (r: Option<String>)
    ensures
        match r {
            Some(z) => explicit_zone_of(doc_view(*value)) == Some(z@),
            None => explicit_zone_of(doc_view(*value)) is None,
        },
{
    match text_field(value, "zone") {
        Some(z) => if starts_with_str(z.as_slice(), "zone.") {
            proof { reveal_strlit("zone."); }
            Some(string_of(slice_range(z.as_slice(), 5, z.len()).as_slice()))
        } else {
            None
        },
        None => None,
    }
}

/// The zone a zone-owned canonical id names.
pub fn zone_from_document_id(document_id: &str) -> (r: Option<String>)
    ensures
        match r {
            Some(z) => zone_from_id_of(document_id@) == Some(z@),
            None => zone_from_id_of(document_id@) is None,
        },
{
    let chars = chars_of(document_id);
    let parts = split_vec(chars.as_slice(), '.');
    proof { lemma_split_nonempty(chars@, '.'); }
    let head = parts[0].as_slice();
    let owned = eq_str(head, "zone") || eq_str(head, "spawn") || eq_str(head, "mob") || eq_str(head, "quest")
        || eq_str(head, "route") || eq_str(head, "script") || eq_str(head, "trigger");
    if owned && parts.len() > 1 {
        Some(string_of(parts[1].as_slice()))
    } else {
        None
    }
}

/// Why an overlay document falls outside a ruleset build's selected zone:
/// its explicit zone, or else the zone its id names, is another one. A flat
/// build, or one with no selected zone, skips nothing.
pub open spec fn out_of_scope_text(layout: Layout, selected: Option<Seq<char>>, v: DocView, id: Seq<char>) -> Option<Seq<char>> {
    if layout != Layout::Ruleset || selected is None {
        None
    } else {
        match target_zone_of(v, id) {
            Some(t) => if t != selected->0 {
                Some("target zone "@ + t + " is outside the selected zone "@ + selected->0 + "; document skipped"@)
            } else {
                None
            },
            None => None,
        }
    }
}

pub open spec fn opt_zone(o: Option<String>) -> Option<Seq<char>> {
    match o {
        Some(z) => Some(z@),
        None => None,
    }
}

/// Explains why an overlay document is outside the build's selected zone.
pub fn out_of_scope_note(options: &LoadOptions, value: &Doc, document_id: &str) -> (r: Option<String>)
    ensures
        match r {
            Some(n) => out_of_scope_text(options.layout, opt_zone(options.zone), doc_view(*value), document_id@) == Some(n@),
            None => out_of_scope_text(options.layout, opt_zone(options.zone), doc_view(*value), document_id@) is None,
        },
{
    match options.layout {
        Layout::Ruleset => {},
        _ => return None,
    }
    let selected = match &options.zone {
        Some(z) => z,
        None => return None,
    };
    let target = match explicit_zone(value) {
        Some(z) => z,
        None => match zone_from_document_id(document_id) {
            Some(z) => z,
            None => return None,
        },
    };
    let t = chars_of(target.as_str());
    if eq_str(t.as_slice(), selected.as_str()) {
        return None;
    }
    let mut out: Vec<char> = Vec::new();
    push_str(&mut out, "target zone ");
    push_chars(&mut out, t.as_slice());
    push_str(&mut out, " is outside the selected zone ");
    push_str(&mut out, selected.as_str());
    push_str(&mut out, "; document skipped");
    Some(string_of(out.as_slice()))
}

/// A document's kind: its own non-empty `kind` text, or else the first
/// dotted segment of its canonical id.
pub open spec fn document_kind_of(v: DocView, id: Seq<char>) -> Seq<char> {
    match text_at(v, "kind"@) {
        Some(k) => if k.len() > 0 { k } else { split(id, '.')[0] },
        None => split(id, '.')[0],
    }
}

/// A document's kind: spawn documents declare it; global resources are
/// recognised by the type tag their canonical id starts with.
pub fn document_kind(value: &Doc, id: &str) -> (r: String)
    ensures
        r@ == document_kind_of(doc_view(*value), id@),
{
    match text_field(value, "kind") {
        Some(k) => if k.len() > 0 {
            return string_of(k.as_slice());
        },
        None => {},
    }
    let chars = chars_of(id);
    let parts = split_vec(chars.as_slice(), '.');
    proof { lemma_split_nonempty(chars@, '.'); }
    string_of(parts[0].as_slice())
}

/// Only a ruleset build with a selected zone skips anything. There, a
/// document's own `zone` field decides before its id: one naming the selected
/// zone is kept whatever its id says, and one naming another zone is
/// skipped; a document without a zone field is judged by the zone its id
/// names, and kept when its id names none.
pub proof fn lemma_explicit_zone_decides_scope(layout: Layout, selected: Option<Seq<char>>, v: DocView, id: Seq<char>,
    z: Seq<char>)
    ensures
        (layout != Layout::Ruleset || selected is None) ==> out_of_scope_text(layout, selected, v, id) is None,
        (layout == Layout::Ruleset && selected == Some(z)) ==> {
            &&& explicit_zone_of(v) == Some(z) ==> out_of_scope_text(layout, selected, v, id) is None
            &&& (explicit_zone_of(v) matches Some(t) ==> (t != z ==> out_of_scope_text(layout, selected, v, id) is Some))
            &&& (explicit_zone_of(v) is None && zone_from_id_of(id) is None) ==> out_of_scope_text(layout, selected, v, id) is None
            &&& explicit_zone_of(v) is None ==> (zone_from_id_of(id) matches Some(t)
                ==> (t != z ==> out_of_scope_text(layout, selected, v, id) is Some))
        },
{
}

} // verus!
