//! Cross-reference integrity over the whole authored chain:
//! quest → mob → spawn table → placement → item → loot table → locale.
//!
//! Every failure names both ends: the document that made the reference and
//! the id it could not resolve. Three outcomes are deliberately not failures:
//! a zone-scoped id naming another zone is *external*; an id under
//! `item.interactive-objects.` is *unmodelled*; a localization key no locale
//! supplies is a *gap*, which `require_locale` promotes for a build that must
//! be fully translated.

use vstd::prelude::*;
use crate::text::{
    chars_of, string_of, eq_str, seq_eq, copy_chars, slice_range, push_str, push_chars,
    push_decimal, decimal, split, split_vec, views_of, join, join_vec, trim, trim_vec,
    has_prefix, has_suffix, starts_with_str, ends_with_str, contains_char, lemma_split_nonempty,
};
use crate::reference::{trim_lead_slash, trim_lead_slash_vec};
use crate::script::parent_dir_of;
use crate::scan::{text_views, lex_le, lex_le_exec, lemma_lex_total, lemma_lex_transitive, lemma_lex_antisym};
use crate::source::{
    Provenance, LocRef, ObjectRef, SourceTree, ZoneDocument, PlacementDocument, SourcePlacement,
    SpawnTableDocument, SourceTableEntry, MobDocument, MobKindDocument, FactionDocument,
    FactionRelationDocument, AbilityDocument, RouteDocument, QuestDocument, QuestPrerequisiteDocument,
    QuestObjectiveDocument, QuestRewardItemDocument, ItemDocument, LootTableDocument, LootNodeDocument,
    ChargenDocument, SourceLoadoutEntry, loc_entries, entry_views, ref_target, opt_ref_target,
};

verus! {

/// Ids under this prefix name interactive world objects, which no table
/// models.
pub open spec fn interactive_prefix() -> Seq<char> {
    "item.interactive-objects."@
}

/// One reference the pack cannot resolve.
#[derive(Clone, Debug)]
pub struct DanglingRef {
    /// What kind of edge broke, for example `quest -> starter mob`.
    pub class: String,
    /// The document that made the reference.
    pub referencer: String,
    /// The id it names.
    pub target: String,
}

pub open spec fn dangling_text(class: Seq<char>, referencer: Seq<char>, target: Seq<char>) -> Seq<char> {
    class + ": "@ + referencer + " references "@ + target + ", which this pack does not carry"@
}

impl DanglingRef {
    pub fn describe(&self) -> (r: String)
        ensures
            r@ == dangling_text(self.class@, self.referencer@, self.target@),
    {
        let mut out: Vec<char> = Vec::new();
        push_str(&mut out, self.class.as_str());
        push_str(&mut out, ": ");
        push_str(&mut out, self.referencer.as_str());
        push_str(&mut out, " references ");
        push_str(&mut out, self.target.as_str());
        push_str(&mut out, ", which this pack does not carry");
        assert(out@ =~= dangling_text(self.class@, self.referencer@, self.target@));
        string_of(out.as_slice())
    }
}

/// A reference into another zone's content.
#[derive(Clone, Debug)]
pub struct ExternalRef {
    pub class: String,
    pub referencer: String,
    pub target: String,
    pub zone: String,
}

/// A reference into a namespace no table models.
#[derive(Clone, Debug)]
pub struct UnmodelledRef {
    pub class: String,
    pub referencer: String,
    pub target: String,
}

/// A localization key no locale document in this pack supplies.
#[derive(Clone, Debug)]
pub struct LocaleGap {
    pub referencer: String,
    pub field: String,
    pub key: String,
}

/// What the reference pass found.
#[derive(Debug, Default)]
pub struct ReferenceReport {
    pub resolved: usize,
    pub dangling: Vec<DanglingRef>,
    pub external: Vec<ExternalRef>,
    pub unmodelled: Vec<UnmodelledRef>,
    pub locale_gaps: Vec<LocaleGap>,
}

/// The report as values: the resolved count and each list's entries.
pub struct ReportView {
    pub resolved: nat,
    pub dangling: Seq<(Seq<char>, Seq<char>, Seq<char>)>,
    pub external: Seq<(Seq<char>, Seq<char>, Seq<char>, Seq<char>)>,
    pub unmodelled: Seq<(Seq<char>, Seq<char>, Seq<char>)>,
    pub gaps: Seq<(Seq<char>, Seq<char>, Seq<char>)>,
}

pub open spec fn dangling_views(v: Seq<DanglingRef>) -> Seq<(Seq<char>, Seq<char>, Seq<char>)> {
    v.map_values(|d: DanglingRef| (d.class@, d.referencer@, d.target@))
}

pub open spec fn external_views(v: Seq<ExternalRef>) -> Seq<(Seq<char>, Seq<char>, Seq<char>, Seq<char>)> {
    v.map_values(|d: ExternalRef| (d.class@, d.referencer@, d.target@, d.zone@))
}

pub open spec fn unmodelled_views(v: Seq<UnmodelledRef>) -> Seq<(Seq<char>, Seq<char>, Seq<char>)> {
    v.map_values(|d: UnmodelledRef| (d.class@, d.referencer@, d.target@))
}

pub open spec fn gap_views(v: Seq<LocaleGap>) -> Seq<(Seq<char>, Seq<char>, Seq<char>)> {
    v.map_values(|d: LocaleGap| (d.referencer@, d.field@, d.key@))
}

impl ReferenceReport {
    pub open spec fn view(&self) -> ReportView {
        ReportView {
            resolved: self.resolved as nat,
            dangling: dangling_views(self.dangling@),
            external: external_views(self.external@),
            unmodelled: unmodelled_views(self.unmodelled@),
            gaps: gap_views(self.locale_gaps@),
        }
    }

    pub fn is_clean(&self) -> (r: bool)
        ensures
            r == (self.dangling@.len() == 0),
    {
        self.dangling.len() == 0
    }

    /// One message per broken edge, capped at twenty so a tree-wide breakage
    /// produces a diagnosis rather than a log dump.
    pub fn failure_message(&self) -> (r: String)
        ensures
            r@ == failure_text(dangling_views(self.dangling@)),
    {
        let n = self.dangling.len();
        let shown: usize = if n < 20 { n } else { 20 };
        let mut lines: Vec<Vec<char>> = Vec::new();
        let ghost all = dangling_views(self.dangling@);
        let mut i: usize = 0;
        while i < shown
            invariant
                shown <= n,
                n == self.dangling@.len(),
                all == dangling_views(self.dangling@),
                i <= shown,
                views_of(lines@) == shown_lines(all.take(i as int)),
            decreases shown - i,
        {
            let d = self.dangling[i].describe();
            let line = chars_of(d.as_str());
            let ghost before = views_of(lines@);
            lines.push(line);
            assert(all.take(i + 1).drop_last() =~= all.take(i as int));
            assert(views_of(lines@) =~= before.push(line@));
            i = i + 1;
        }
        if n > 20 {
            let mut more: Vec<char> = Vec::new();
            push_str(&mut more, "... and ");
            push_decimal(&mut more, (n - 20) as u64);
            push_str(&mut more, " more");
            let ghost before = views_of(lines@);
            lines.push(more);
            assert(views_of(lines@) =~= before.push(more@));
        }
        let mut out: Vec<char> = Vec::new();
        push_decimal(&mut out, n as u64);
        push_str(&mut out, " unresolved reference(s):\n  ");
        let sep = chars_of("\n  ");
        let body = join_vec(&lines, sep.as_slice());
        push_chars(&mut out, body.as_slice());
        assert(out@ =~= failure_text(all));
        string_of(out.as_slice())
    }
}

/// The descriptions of `d`, in order.
pub open spec fn shown_lines(d: Seq<(Seq<char>, Seq<char>, Seq<char>)>) -> Seq<Seq<char>>
    decreases d.len(),
{
    if d.len() == 0 {
        Seq::<Seq<char>>::empty()
    } else {
        shown_lines(d.drop_last()).push(dangling_text(d.last().0, d.last().1, d.last().2))
    }
}

/// The failure message for a list of dangling references: the count, then at
/// most twenty descriptions, then how many more there are.
pub open spec fn failure_text(d: Seq<(Seq<char>, Seq<char>, Seq<char>)>) -> Seq<char> {
    let shown = shown_lines(d.take(if d.len() < 20 { d.len() as int } else { 20 }));
    let lines = if d.len() > 20 {
        shown.push("... and "@ + decimal((d.len() - 20) as nat) + " more"@)
    } else {
        shown
    };
    decimal(d.len()) + " unresolved reference(s):\n  "@ + join(lines, "\n  "@)
}

// ----- zones ----------------------------------------------------------------

/// Id namespaces scoped to one zone, whose second segment is a zone slug.
pub open spec fn zone_scoped(prefix: Seq<char>) -> bool {
    prefix == "mob"@ || prefix == "quest"@ || prefix == "spawn"@ || prefix == "route"@
}

/// The zone a zone-scoped id belongs to, when it is not `zone_slug`.
pub open spec fn foreign_zone_of(id: Seq<char>, zone_slug: Seq<char>) -> Option<Seq<char>> {
    let segments = split(id, '.');
    if !zone_scoped(segments[0]) || segments.len() < 3 || segments[1] == zone_slug {
        None
    } else {
        Some(segments[1])
    }
}

/// The zone slug a zone-scoped id belongs to, when it is not this pack's.
pub fn foreign_zone(id: &str, zone_slug: &str) -> (r: Option<String>)
    ensures
        match (r, foreign_zone_of(id@, zone_slug@)) {
            (Some(a), Some(b)) => a@ == b,
            (None, None) => true,
            _ => false,
        },
{
    let chars = chars_of(id);
    let segments = split_vec(chars.as_slice(), '.');
    proof { lemma_split_nonempty(chars@, '.'); }
    let first = segments[0].as_slice();
    if !(eq_str(first, "mob") || eq_str(first, "quest") || eq_str(first, "spawn") || eq_str(first, "route")) {
        return None;
    }
    if segments.len() < 3 {
        return None;
    }
    let zone = chars_of(zone_slug);
    if seq_eq(segments[1].as_slice(), zone.as_slice()) {
        return None;
    }
    Some(string_of(segments[1].as_slice()))
}

// ----- localization keys ----------------------------------------------------

/// The candidate keys an authored `loc_ref` value may name, in the order they
/// are tried: the value itself; without `.txt` and leading `/`; and, for a
/// bare file name, qualified by the directory of the document's source path.
pub open spec fn candidates_of(authored: Seq<char>, source_path: Seq<char>) -> Seq<Seq<char>> {
    let trimmed = trim(authored);
    let first = seq![trimmed];
    let stem = if has_suffix(trimmed, ".txt"@) { trimmed.subrange(0, trimmed.len() - 4) } else { trimmed };
    let absolute = trim_lead_slash(stem);
    let second = if first.contains(absolute) { first } else { first.push(absolute) };
    if source_path.len() > 0 && !stem.contains('/') {
        let directory = parent_dir_of(trim_lead_slash(source_path));
        let qualified = if directory.len() == 0 { stem } else { directory + "/"@ + stem };
        if second.contains(qualified) { second } else { second.push(qualified) }
    } else {
        second
    }
}

/// The first of `candidates` that `keys` holds.
pub open spec fn first_known(candidates: Seq<Seq<char>>, keys: Set<Seq<char>>) -> Option<Seq<char>>
    decreases candidates.len(),
{
    if candidates.len() == 0 {
        None
    } else if keys.contains(candidates[0]) {
        Some(candidates[0])
    } else {
        first_known(candidates.drop_first(), keys)
    }
}

fn holds_text(v: &Vec<Vec<char>>, x: &[char]) -> (r: bool)
    ensures
        r == views_of(v@).contains(x@),
{
    let mut i: usize = 0;
    while i < v.len()
        invariant
            i <= v@.len(),
            forall|k: int| 0 <= k < i ==> views_of(v@)[k] != x@,
        decreases v@.len() - i,
    {
        if seq_eq(v[i].as_slice(), x) {
            assert(views_of(v@)[i as int] == x@);
            return true;
        }
        i = i + 1;
    }
    false
}

pub fn candidates(authored: &str, source_path: &str) -> (out: Vec<String>)
    ensures
        text_views(out@) == candidates_of(authored@, source_path@),
{
    let a = chars_of(authored);
    let trimmed = trim_vec(a.as_slice());
    let mut out: Vec<Vec<char>> = Vec::new();
    out.push(copy_chars(trimmed.as_slice()));
    assert(views_of(out@) =~= seq![trim(authored@)]);
    let stem = if ends_with_str(trimmed.as_slice(), ".txt") {
        proof { reveal_strlit(".txt"); }
        slice_range(trimmed.as_slice(), 0, trimmed.len() - 4)
    } else {
        copy_chars(trimmed.as_slice())
    };
    let absolute = trim_lead_slash_vec(stem.as_slice());
    if !holds_text(&out, absolute.as_slice()) {
        let ghost before = views_of(out@);
        out.push(absolute);
        assert(views_of(out@) =~= before.push(trim_lead_slash(stem@)));
    }
    let path = chars_of(source_path);
    if path.len() > 0 && !contains_char(stem.as_slice(), '/') {
        let rooted = trim_lead_slash_vec(path.as_slice());
        let rooted_text = string_of(rooted.as_slice());
        let directory = chars_of(crate::script::parent_dir(rooted_text.as_str()).as_str());
        let qualified = if directory.len() == 0 {
            copy_chars(stem.as_slice())
        } else {
            let mut q = copy_chars(directory.as_slice());
            q.push('/');
            push_chars(&mut q, stem.as_slice());
            proof { reveal_strlit("/"); }
            assert(q@ =~= directory@ + "/"@ + stem@);
            q
        };
        if !holds_text(&out, qualified.as_slice()) {
            let ghost before = views_of(out@);
            out.push(qualified);
            assert(views_of(out@) =~= before.push(qualified@));
        }
    }
    let mut result: Vec<String> = Vec::new();
    let mut i: usize = 0;
    while i < out.len()
        invariant
            i <= out@.len(),
            text_views(result@) == views_of(out@).take(i as int),
        decreases out@.len() - i,
    {
        let ghost before = text_views(result@);
        let text = string_of(out[i].as_slice());
        result.push(text);
        assert(text_views(result@) =~= before.push(text@));
        assert(text_views(result@) =~= views_of(out@).take(i + 1));
        i = i + 1;
    }
    assert(views_of(out@).take(out@.len() as int) =~= views_of(out@));
    result
}

/// A resolved localization key and whether the pack supplies it.
#[derive(Clone, Debug)]
pub struct Resolved {
    pub key: String,
    pub found: bool,
}

/// What `LocaleIndex::resolve` answers for an authored value.
pub open spec fn resolved_of(keys: Set<Seq<char>>, authored: Seq<char>, source_path: Seq<char>) -> (Seq<char>, bool) {
    match first_known(candidates_of(authored, source_path), keys) {
        Some(k) => (k, true),
        None => (trim(authored), false),
    }
}

/// Every localization key the pack supplies, each once.
#[derive(Debug, Default)]
pub struct LocaleIndex {
    keys: Vec<String>,
}

impl LocaleIndex {
    pub closed spec fn view(&self) -> Set<Seq<char>> {
        text_views(self.keys@).to_set()
    }

    pub closed spec fn wf(&self) -> bool {
        text_views(self.keys@).no_duplicates()
    }

    /// An index holding exactly `keys`.
    pub fn from_keys(keys: Vec<String>) -> (out: Self)
        ensures
            out.wf(),
            out@ == text_views(keys@).to_set(),
    {
        let mut out = LocaleIndex { keys: Vec::new() };
        assert(text_views(out.keys@) =~= Seq::<Seq<char>>::empty());
        let mut i: usize = 0;
        while i < keys.len()
            invariant
                i <= keys@.len(),
                out.wf(),
                out@ == text_views(keys@).take(i as int).to_set(),
            decreases keys@.len() - i,
        {
            out.insert(&keys[i]);
            assert(text_views(keys@).take(i + 1) =~= text_views(keys@).take(i as int).push(keys@[i as int]@));
            proof {
                text_views(keys@).take(i as int).lemma_push_to_set_commute(keys@[i as int]@);
            }
            i = i + 1;
        }
        assert(text_views(keys@).take(keys@.len() as int) =~= text_views(keys@));
        out
    }

    fn insert(&mut self, key: &String)
        requires
            old(self).wf(),
        ensures
            final(self).wf(),
            final(self)@ == old(self)@.insert(key@),
    {
        let k = chars_of(key.as_str());
        let mut i: usize = 0;
        while i < self.keys.len()
            invariant
                i <= self.keys@.len(),
                self.wf(),
                self == old(self),
                k@ == key@,
                forall|j: int| 0 <= j < i ==> text_views(self.keys@)[j] != key@,
            decreases self.keys@.len() - i,
        {
            assert(text_views(self.keys@)[i as int] == self.keys@[i as int]@);
            if eq_str(k.as_slice(), self.keys[i].as_str()) {
                proof {
                    assert(text_views(self.keys@).contains(key@)) by {
                        assert(text_views(self.keys@)[i as int] == key@);
                    }
                    assert(self@ =~= self@.insert(key@));
                }
                return;
            }
            i = i + 1;
        }
        let ghost before = text_views(self.keys@);
        self.keys.push(key.clone());
        proof {
            assert(text_views(self.keys@) =~= before.push(key@));
            before.lemma_push_to_set_commute(key@);
            assert(!before.contains(key@));
            assert(text_views(self.keys@).no_duplicates()) by {
                let after = text_views(self.keys@);
                assert forall|a: int, b: int| 0 <= a < after.len() && 0 <= b < after.len() && a != b
                    implies after[a] != after[b] by {
                    if a < before.len() && b < before.len() {
                        assert(after[a] == before[a] && after[b] == before[b]);
                    } else if a < before.len() {
                        assert(after[a] == before[a]);
                    } else if b < before.len() {
                        assert(after[b] == before[b]);
                    }
                }
            }
        }
    }

    /// The keys of every entry of `locales`.
    pub fn build(locales: &[crate::source::LocaleDocument]) -> (out: Self)
        ensures
            out.wf(),
            forall|k: Seq<char>| out@.contains(k) <==> exists|i: int, j: int| 0 <= i < locales@.len()
                && 0 <= j < locales@[i].entries@.len() && (#[trigger] locales@[i].entries@[j]).key@ == k,
    {
        let mut out = LocaleIndex { keys: Vec::new() };
        assert(text_views(out.keys@) =~= Seq::<Seq<char>>::empty());
        let mut i: usize = 0;
        while i < locales.len()
            invariant
                i <= locales@.len(),
                out.wf(),
                forall|k: Seq<char>| out@.contains(k) <==> exists|a: int, b: int| 0 <= a < i
                    && 0 <= b < locales@[a].entries@.len() && (#[trigger] locales@[a].entries@[b]).key@ == k,
            decreases locales@.len() - i,
        {
            let entries = &locales[i].entries;
            let mut j: usize = 0;
            while j < entries.len()
                invariant
                    i < locales@.len(),
                    entries == locales@[i as int].entries,
                    j <= entries@.len(),
                    out.wf(),
                    forall|k: Seq<char>| out@.contains(k) <==> (exists|a: int, b: int| 0 <= a < i
                        && 0 <= b < locales@[a].entries@.len() && (#[trigger] locales@[a].entries@[b]).key@ == k)
                        || (exists|b: int| 0 <= b < j && (#[trigger] entries@[b]).key@ == k),
                decreases entries@.len() - j,
            {
                out.insert(&entries[j].key);
                proof {
                    assert forall|k: Seq<char>| out@.contains(k) <==> (exists|a: int, b: int| 0 <= a < i
                        && 0 <= b < locales@[a].entries@.len() && (#[trigger] locales@[a].entries@[b]).key@ == k)
                        || (exists|b: int| 0 <= b < j + 1 && (#[trigger] entries@[b]).key@ == k) by {
                        if k == entries@[j as int].key@ {
                        }
                    }
                }
                j = j + 1;
            }
            proof {
                assert forall|k: Seq<char>| out@.contains(k) <==> exists|a: int, b: int| 0 <= a < i + 1
                    && 0 <= b < locales@[a].entries@.len() && (#[trigger] locales@[a].entries@[b]).key@ == k by {
                    if out@.contains(k) {
                        if exists|b: int| 0 <= b < j && (#[trigger] entries@[b]).key@ == k {
                            let b = choose|b: int| 0 <= b < j && (#[trigger] entries@[b]).key@ == k;
                            assert(locales@[i as int].entries@[b].key@ == k);
                        }
                    }
                    if exists|a: int, b: int| 0 <= a < i + 1 && 0 <= b < locales@[a].entries@.len()
                        && (#[trigger] locales@[a].entries@[b]).key@ == k {
                        let (a, b) = choose|a: int, b: int| 0 <= a < i + 1 && 0 <= b < locales@[a].entries@.len()
                            && (#[trigger] locales@[a].entries@[b]).key@ == k;
                        if a == i {
                            assert(entries@[b].key@ == k);
                        }
                    }
                }
            }
            i = i + 1;
        }
        out
    }

    pub fn len(&self) -> (r: usize)
        requires
            self.wf(),
        ensures
            r == self@.len(),
    {
        proof { text_views(self.keys@).unique_seq_to_set(); }
        self.keys.len()
    }

    pub fn is_empty(&self) -> (r: bool)
        ensures
            r == (self@.len() == 0),
    {
        proof {
            if self.keys@.len() > 0 {
                assert(self@.contains(text_views(self.keys@)[0]));
                vstd::seq_lib::seq_to_set_is_finite(text_views(self.keys@));
                vstd::set::axiom_set_contains_len(self@, text_views(self.keys@)[0]);
            } else {
                assert(text_views(self.keys@) =~= Seq::<Seq<char>>::empty());
                assert(self@ =~= Set::<Seq<char>>::empty());
                broadcast use vstd::set::axiom_set_empty_len;
            }
        }
        self.keys.len() == 0
    }

    fn contains_key(&self, key: &[char]) -> (r: bool)
        ensures
            r == self@.contains(key@),
    {
        let mut i: usize = 0;
        while i < self.keys.len()
            invariant
                i <= self.keys@.len(),
                forall|j: int| 0 <= j < i ==> text_views(self.keys@)[j] != key@,
            decreases self.keys@.len() - i,
        {
            assert(text_views(self.keys@)[i as int] == self.keys@[i as int]@);
            if eq_str(key, self.keys[i].as_str()) {
                assert(text_views(self.keys@)[i as int] == key@);
                return true;
            }
            i = i + 1;
        }
        assert(!text_views(self.keys@).contains(key@));
        false
    }

    /// Resolves an authored `loc_ref` value to the first candidate key the
    /// index holds. When none resolves, `found` is false and `key` is the
    /// trimmed authored value, which a caller must not write into a row.
    pub fn resolve(&self, authored: &str, source: &Provenance) -> (r: Resolved)
        ensures
            (r.key@, r.found) == resolved_of(self@, authored@, source.path@),
    {
        let cands = candidates(authored, source.path.as_str());
        let ghost cs = text_views(cands@);
        let mut i: usize = 0;
        assert(cs.skip(0) =~= cs);
        while i < cands.len()
            invariant
                i <= cands@.len(),
                cs == text_views(cands@),
                cs == candidates_of(authored@, source.path@),
                first_known(cs.skip(i as int), self@) == first_known(cs, self@),
            decreases cands@.len() - i,
        {
            let c = chars_of(cands[i].as_str());
            assert(cs.skip(i as int)[0] == cands@[i as int]@);
            assert(cs.skip(i as int).drop_first() =~= cs.skip(i + 1));
            if self.contains_key(c.as_slice()) {
                return Resolved { key: string_of(c.as_slice()), found: true };
            }
            i = i + 1;
        }
        let a = chars_of(authored);
        let trimmed = trim_vec(a.as_slice());
        Resolved { key: string_of(trimmed.as_slice()), found: false }
    }
}

// ----- promoting and grouping gaps -------------------------------------------

pub open spec fn gaps_as_dangling(g: Seq<(Seq<char>, Seq<char>, Seq<char>)>) -> Seq<(Seq<char>, Seq<char>, Seq<char>)> {
    g.map_values(|x: (Seq<char>, Seq<char>, Seq<char>)| ("locale key"@, x.0 + " ("@ + x.1 + ")"@, x.2))
}

/// Turns locale gaps into failures, for a build that must be fully
/// translated: each gap becomes a dangling `locale key` reference naming the
/// document and field, and no gap remains.
pub fn require_locale(report: &mut ReferenceReport)
    ensures
        final(report)@.dangling == old(report)@.dangling + gaps_as_dangling(old(report)@.gaps),
        final(report)@.gaps.len() == 0,
        final(report)@.resolved == old(report)@.resolved,
        final(report)@.external == old(report)@.external,
        final(report)@.unmodelled == old(report)@.unmodelled,
{
    let mut gaps: Vec<LocaleGap> = Vec::new();
    std::mem::swap(&mut gaps, &mut report.locale_gaps);
    let ghost start = dangling_views(report.dangling@);
    let ghost g = gap_views(gaps@);
    let mut i: usize = 0;
    while i < gaps.len()
        invariant
            i <= gaps@.len(),
            g == gap_views(gaps@),
            report.locale_gaps@.len() == 0,
            report.resolved == old(report).resolved,
            report.external@ == old(report).external@,
            report.unmodelled@ == old(report).unmodelled@,
            start == dangling_views(old(report).dangling@),
            g == gap_views(old(report).locale_gaps@),
            dangling_views(report.dangling@) == start + gaps_as_dangling(g.take(i as int)),
        decreases gaps@.len() - i,
    {
        let gap = &gaps[i];
        let mut referencer: Vec<char> = Vec::new();
        push_str(&mut referencer, gap.referencer.as_str());
        push_str(&mut referencer, " (");
        push_str(&mut referencer, gap.field.as_str());
        push_str(&mut referencer, ")");
        let d = DanglingRef {
            class: string_of(chars_of("locale key").as_slice()),
            referencer: string_of(referencer.as_slice()),
            target: gap.key.clone(),
        };
        let ghost before = dangling_views(report.dangling@);
        report.dangling.push(d);
        assert(dangling_views(report.dangling@) =~= before.push((d.class@, d.referencer@, d.target@)));
        assert(gaps_as_dangling(g.take(i + 1)) =~= gaps_as_dangling(g.take(i as int)).push(
            ("locale key"@, g[i as int].0 + " ("@ + g[i as int].1 + ")"@, g[i as int].2)));
        i = i + 1;
    }
    assert(g.take(gaps@.len() as int) =~= g);
    assert(gap_views(report.locale_gaps@) =~= Seq::<(Seq<char>, Seq<char>, Seq<char>)>::empty());
}

/// The id namespace of a referencer: its text before the first `.`.
pub open spec fn namespace_of(referencer: Seq<char>) -> Seq<char> {
    split(referencer, '.')[0]
}

/// How many gaps come from documents in namespace `ns`.
pub open spec fn gap_count(g: Seq<(Seq<char>, Seq<char>, Seq<char>)>, ns: Seq<char>) -> nat
    decreases g.len(),
{
    if g.len() == 0 {
        0
    } else {
        gap_count(g.drop_last(), ns) + if namespace_of(g.last().0) == ns { 1nat } else { 0nat }
    }
}

pub open spec fn count_views(v: Seq<(String, usize)>) -> Seq<(Seq<char>, nat)> {
    v.map_values(|e: (String, usize)| (e.0@, e.1 as nat))
}

/// Namespace counts in ascending namespace order, each namespace once, with
/// exactly the namespaces some gap comes from.
pub open spec fn counts_match(c: Seq<(Seq<char>, nat)>, g: Seq<(Seq<char>, Seq<char>, Seq<char>)>) -> bool {
    &&& forall|a: int, b: int| 0 <= a < b < c.len() ==> lex_le(#[trigger] c[a].0, #[trigger] c[b].0) && c[a].0 != c[b].0
    &&& forall|a: int| 0 <= a < c.len() ==> (#[trigger] c[a]).1 == gap_count(g, c[a].0) && c[a].1 > 0
    &&& forall|i: int| 0 <= i < g.len() ==> exists|a: int| 0 <= a < c.len() && (#[trigger] c[a]).0 == namespace_of(#[trigger] g[i].0)
}

proof fn lemma_gap_count_bound(g: Seq<(Seq<char>, Seq<char>, Seq<char>)>, ns: Seq<char>)
    ensures
        gap_count(g, ns) <= g.len(),
    decreases g.len(),
{
    if g.len() > 0 {
        lemma_gap_count_bound(g.drop_last(), ns);
    }
}

/// Groups locale gaps by the id namespace that produced them, so a report can
/// say in one line where the gaps are.
pub fn gaps_by_namespace(report: &ReferenceReport) -> (out: Vec<(String, usize)>)
    ensures
        counts_match(count_views(out@), report@.gaps),
{
    let ghost g = report@.gaps;
    let mut out: Vec<(String, usize)> = Vec::new();
    let mut i: usize = 0;
    while i < report.locale_gaps.len()
        invariant
            i <= report.locale_gaps@.len(),
            g == report@.gaps,
            counts_match(count_views(out@), g.take(i as int)),
        decreases report.locale_gaps@.len() - i,
    {
        let ghost prefix = g.take(i as int);
        let ghost next = g.take(i + 1);
        assert(next.drop_last() =~= prefix);
        let gap = &report.locale_gaps[i];
        assert(next.last() == g[i as int]);
        assert(g[i as int].0 == gap.referencer@);
        let referencer = chars_of(gap.referencer.as_str());
        let pieces = split_vec(referencer.as_slice(), '.');
        proof { lemma_split_nonempty(referencer@, '.'); }
        let ns = copy_chars(pieces[0].as_slice());
        let ghost before = count_views(out@);
        proof { lemma_gap_count_bound(prefix, ns@); }
        let mut j: usize = 0;
        while j < out.len() && lex_le_exec(chars_of(out[j].0.as_str()).as_slice(), ns.as_slice())
            && !eq_str(ns.as_slice(), out[j].0.as_str())
            invariant
                j <= out@.len(),
                before == count_views(out@),
                forall|a: int| 0 <= a < j ==> lex_le(#[trigger] before[a].0, ns@) && before[a].0 != ns@,
            decreases out@.len() - j,
        {
            j = j + 1;
        }
        if j < out.len() && eq_str(ns.as_slice(), out[j].0.as_str()) {
            let count = out[j].1;
            assert(before[j as int] == (out@[j as int].0@, out@[j as int].1 as nat));
            assert(before[j as int].0 == ns@);
            assert(count == gap_count(prefix, ns@));
            assert(count < i + 1) by { lemma_gap_count_bound(prefix, ns@); }
            let key = out[j].0.clone();
            out.set(j, (key, count + 1));
            proof {
                let after = count_views(out@);
                assert(after =~= before.update(j as int, (ns@, (count + 1) as nat)));
                assert forall|a: int| 0 <= a < after.len() implies (#[trigger] after[a]).1 == gap_count(next, after[a].0) && after[a].1 > 0 by {
                    assert(gap_count(next, after[a].0) == gap_count(prefix, after[a].0) + if namespace_of(next.last().0) == after[a].0 { 1nat } else { 0nat });
                }
                assert forall|k: int| 0 <= k < next.len() implies exists|a: int| 0 <= a < after.len() && (#[trigger] after[a]).0 == namespace_of(#[trigger] next[k].0) by {
                    if k < prefix.len() {
                        assert(next[k] == prefix[k]);
                        let a = choose|a: int| 0 <= a < before.len() && (#[trigger] before[a]).0 == namespace_of(#[trigger] prefix[k].0);
                        assert(after[a].0 == before[a].0);
                    } else {
                        assert(after[j as int].0 == namespace_of(next[k].0));
                    }
                }
            }
        } else {
            proof {
                if j < before.len() {
                    lemma_lex_total(before[j as int].0, ns@);
                }
                assert(gap_count(prefix, ns@) == 0) by {
                    if gap_count(prefix, ns@) > 0 {
                        lemma_gap_count_present(prefix, ns@);
                        let k = choose|k: int| 0 <= k < prefix.len() && namespace_of(prefix[k].0) == ns@;
                        let a = choose|a: int| 0 <= a < before.len() && (#[trigger] before[a]).0 == namespace_of(#[trigger] prefix[k].0);
                        if a < j {
                        } else if a == j {
                        } else {
                            lemma_lex_transitive(ns@, before[j as int].0, before[a].0);
                            lemma_lex_antisym(ns@, before[a].0);
                        }
                    }
                }
            }
            let entry = (string_of(ns.as_slice()), 1usize);
            out.insert(j, entry);
            proof {
                let after = count_views(out@);
                assert(after =~= before.insert(j as int, (ns@, 1nat)));
                assert forall|a: int, b: int| 0 <= a < b < after.len() implies lex_le(#[trigger] after[a].0, #[trigger] after[b].0) && after[a].0 != after[b].0 by {
                    if b < j {
                    } else if b == j {
                    } else if a == j {
                        assert(after[b] == before[b - 1]);
                        if b - 1 > j {
                            lemma_lex_transitive(ns@, before[j as int].0, before[b - 1].0);
                            if ns@ == before[b - 1].0 {
                                lemma_lex_antisym(before[j as int].0, ns@);
                            }
                        }
                    } else if a < j {
                        assert(after[b] == before[b - 1]);
                    } else {
                        assert(after[a] == before[a - 1] && after[b] == before[b - 1]);
                    }
                }
                assert forall|a: int| 0 <= a < after.len() implies (#[trigger] after[a]).1 == gap_count(next, after[a].0) && after[a].1 > 0 by {
                    assert(gap_count(next, after[a].0) == gap_count(prefix, after[a].0) + if namespace_of(next.last().0) == after[a].0 { 1nat } else { 0nat });
                    if a < j {
                        assert(after[a] == before[a]);
                    } else if a > j {
                        assert(after[a] == before[a - 1]);
                    }
                }
                assert forall|k: int| 0 <= k < next.len() implies exists|a: int| 0 <= a < after.len() && (#[trigger] after[a]).0 == namespace_of(#[trigger] next[k].0) by {
                    if k < prefix.len() {
                        assert(next[k] == prefix[k]);
                        let a = choose|a: int| 0 <= a < before.len() && (#[trigger] before[a]).0 == namespace_of(#[trigger] prefix[k].0);
                        if a < j {
                            assert(after[a] == before[a]);
                        } else {
                            assert(after[a + 1] == before[a]);
                        }
                    } else {
                        assert(after[j as int].0 == namespace_of(next[k].0));
                    }
                }
            }
        }
        i = i + 1;
    }
    assert(g.take(report.locale_gaps@.len() as int) =~= g);
    out
}

proof fn lemma_gap_count_present(g: Seq<(Seq<char>, Seq<char>, Seq<char>)>, ns: Seq<char>)
    requires
        gap_count(g, ns) > 0,
    ensures
        exists|k: int| 0 <= k < g.len() && namespace_of(g[k].0) == ns,
    decreases g.len(),
{
    if namespace_of(g.last().0) == ns {
        assert(namespace_of(g[g.len() - 1].0) == ns);
    } else {
        lemma_gap_count_present(g.drop_last(), ns);
        let k = choose|k: int| 0 <= k < g.drop_last().len() && namespace_of(g.drop_last()[k].0) == ns;
        assert(g[k] == g.drop_last()[k]);
    }
}

// ----- the edges of the authored chain -----------------------------------------

/// The id sets a reference can resolve against.
#[derive(Clone, Copy, Debug, PartialEq, Eq)]
pub enum Namespace {
    Zones,
    Mobs,
    SpawnTables,
    Routes,
    Quests,
    Factions,
    MobKinds,
    Abilities,
    Items,
    LootTables,
    LevelCurves,
}

/// One edge of the authored chain: a reference by id, or a localization key.
#[derive(Debug)]
pub enum Edge {
    Reference { class: String, referencer: String, target: String, first: Namespace, second: Option<Namespace> },
    Locale { referencer: String, field: String, authored: String, source: String },
}

pub enum EdgeView {
    Reference { class: Seq<char>, referencer: Seq<char>, target: Seq<char>, first: Namespace, second: Option<Namespace> },
    Locale { referencer: Seq<char>, field: Seq<char>, authored: Seq<char>, source: Seq<char> },
}

pub open spec fn edge_view(e: Edge) -> EdgeView {
    match e {
        Edge::Reference { class, referencer, target, first, second } => EdgeView::Reference {
            class: class@, referencer: referencer@, target: target@, first, second,
        },
        Edge::Locale { referencer, field, authored, source } => EdgeView::Locale {
            referencer: referencer@, field: field@, authored: authored@, source: source@,
        },
    }
}

pub open spec fn edge_views(v: Seq<Edge>) -> Seq<EdgeView> {
    v.map_values(|e: Edge| edge_view(e))
}

pub open spec fn ref_edge(class: Seq<char>, referencer: Seq<char>, target: Seq<char>, first: Namespace, second: Option<Namespace>) -> Seq<EdgeView> {
    seq![EdgeView::Reference { class, referencer, target, first, second }]
}

/// The edge an optional target makes: none when there is no id.
pub open spec fn object_edge(class: Seq<char>, referencer: Seq<char>, target: Option<Seq<char>>, first: Namespace, second: Option<Namespace>) -> Seq<EdgeView> {
    match target {
        Some(t) => ref_edge(class, referencer, t, first, second),
        None => Seq::<EdgeView>::empty(),
    }
}

pub open spec fn loc_entry_edges(referencer: Seq<char>, entries: Seq<(Seq<char>, Seq<char>)>, source: Seq<char>) -> Seq<EdgeView>
    decreases entries.len(),
{
    if entries.len() == 0 {
        Seq::<EdgeView>::empty()
    } else {
        loc_entry_edges(referencer, entries.drop_last(), source) + seq![EdgeView::Locale {
            referencer, field: entries.last().0, authored: entries.last().1, source,
        }]
    }
}

/// One edge per localization key a document declares.
pub open spec fn loc_edges(referencer: Seq<char>, loc_ref: LocRef, source: Seq<char>) -> Seq<EdgeView> {
    loc_entry_edges(referencer, loc_entries(loc_ref), source)
}

fn own(s: &str) -> (out: String)
    ensures
        out@ == s@,
{
    string_of(chars_of(s).as_slice())
}

fn push_ref(out: &mut Vec<Edge>, class: &str, referencer: &str, target: &str, first: Namespace, second: Option<Namespace>)
    ensures
        edge_views(final(out)@) == edge_views(old(out)@) + ref_edge(class@, referencer@, target@, first, second),
{
    let e = Edge::Reference { class: own(class), referencer: own(referencer), target: own(target), first, second };
    let ghost before = edge_views(out@);
    out.push(e);
    assert(edge_views(out@) =~= before + ref_edge(class@, referencer@, target@, first, second));
}

fn push_object(out: &mut Vec<Edge>, class: &str, referencer: &str, target: &ObjectRef, first: Namespace, second: Option<Namespace>)
    ensures
        edge_views(final(out)@) == edge_views(old(out)@) + object_edge(class@, referencer@, ref_target(*target), first, second),
{
    match target.id() {
        Some(t) => push_ref(out, class, referencer, t, first, second),
        None => {
            assert(edge_views(out@) =~= edge_views(out@) + Seq::<EdgeView>::empty());
        },
    }
}

fn push_optional(out: &mut Vec<Edge>, class: &str, referencer: &str, target: &Option<ObjectRef>, first: Namespace)
    ensures
        edge_views(final(out)@) == edge_views(old(out)@) + object_edge(class@, referencer@, opt_ref_target(*target), first, None),
{
    match target {
        Some(t) => push_object(out, class, referencer, t, first, None),
        None => {
            assert(edge_views(out@) =~= edge_views(out@) + Seq::<EdgeView>::empty());
        },
    }
}

fn push_loc(out: &mut Vec<Edge>, referencer: &str, loc_ref: &LocRef, source: &Provenance)
    ensures
        edge_views(final(out)@) == edge_views(old(out)@) + loc_edges(referencer@, *loc_ref, source.path@),
{
    let entries = loc_ref.entries();
    let ghost es = entry_views(entries@);
    let ghost start = edge_views(out@);
    let mut i: usize = 0;
    assert(start + loc_entry_edges(referencer@, es.take(0), source.path@) =~= start);
    while i < entries.len()
        invariant
            i <= entries@.len(),
            es == entry_views(entries@),
            es == loc_entries(*loc_ref),
            start == edge_views(old(out)@),
            edge_views(out@) == start + loc_entry_edges(referencer@, es.take(i as int), source.path@),
        decreases entries@.len() - i,
    {
        assert(es.take(i + 1).drop_last() =~= es.take(i as int));
        assert(es.take(i + 1).last() == (entries@[i as int].0@, entries@[i as int].1@));
        let e = Edge::Locale {
            referencer: own(referencer),
            field: own(entries[i].0),
            authored: entries[i].1.clone(),
            source: source.path.clone(),
        };
        let ghost before = edge_views(out@);
        let ghost ev = edge_view(e);
        assert(ev == EdgeView::Locale { referencer: referencer@, field: es[i as int].0, authored: es[i as int].1, source: source.path@ });
        out.push(e);
        assert(edge_views(out@) =~= before.push(ev));
        assert(edge_views(out@) =~= start + loc_entry_edges(referencer@, es.take(i + 1), source.path@));
        i = i + 1;
    }
    assert(es.take(entries@.len() as int) =~= es);
}

pub open spec fn zone_edges(z: ZoneDocument) -> Seq<EdgeView> {
    loc_edges(z.id@, z.loc_ref, z.source.path@)
}

fn push_zone(out: &mut Vec<Edge>, z: &ZoneDocument)
    ensures
        edge_views(final(out)@) == edge_views(old(out)@) + zone_edges(*z),
{
    push_loc(out, z.id.as_str(), &z.loc_ref, &z.source);
}

pub open spec fn route_edge(p: SourcePlacement) -> Seq<EdgeView> {
    match p.route {
        Some(r) => ref_edge("placement -> route"@, p.id@, r@, Namespace::Routes, None),
        None => Seq::<EdgeView>::empty(),
    }
}

/// A placement names a mob directly or a spawn table, and maybe a route.
pub open spec fn placement_item_edges(p: SourcePlacement) -> Seq<EdgeView> {
    object_edge("placement -> object"@, p.id@, ref_target(p.object), Namespace::Mobs, Some(Namespace::SpawnTables))
        + route_edge(p)
}

fn push_placement_item(out: &mut Vec<Edge>, p: &SourcePlacement)
    ensures
        edge_views(final(out)@) == edge_views(old(out)@) + placement_item_edges(*p),
{
    let ghost start = edge_views(out@);
    push_object(out, "placement -> object", p.id.as_str(), &p.object, Namespace::Mobs, Some(Namespace::SpawnTables));
    let ghost mid = edge_views(out@);
    match &p.route {
        Some(r) => push_ref(out, "placement -> route", p.id.as_str(), r.as_str(), Namespace::Routes, None),
        None => {},
    }
    assert(edge_views(out@) =~= start + placement_item_edges(*p));
}

pub open spec fn placement_edges(d: PlacementDocument) -> Seq<EdgeView> {
    ref_edge("placements -> zone"@, d.id@, d.zone@, Namespace::Zones, None) + placed_edges(d.placements@)
}

fn push_placement(out: &mut Vec<Edge>, d: &PlacementDocument)
    ensures
        edge_views(final(out)@) == edge_views(old(out)@) + placement_edges(*d),
{
    let ghost start = edge_views(out@);
    push_ref(out, "placements -> zone", d.id.as_str(), d.zone.as_str(), Namespace::Zones, None);
    push_placed_edges(out, &d.placements);
    assert(edge_views(out@) =~= start + placement_edges(*d));
}

pub open spec fn table_edges(d: SpawnTableDocument) -> Seq<EdgeView> {
    ref_edge("spawn table -> zone"@, d.id@, d.zone@, Namespace::Zones, None) + table_entry_edges(d.id@, d.entries@)
}

fn push_table(out: &mut Vec<Edge>, d: &SpawnTableDocument)
    ensures
        edge_views(final(out)@) == edge_views(old(out)@) + table_edges(*d),
{
    let ghost start = edge_views(out@);
    push_ref(out, "spawn table -> zone", d.id.as_str(), d.zone.as_str(), Namespace::Zones, None);
    push_table_entry_edges(out, d.id.as_str(), &d.entries);
    assert(edge_views(out@) =~= start + table_edges(*d));
}

pub open spec fn mob_edges(d: MobDocument) -> Seq<EdgeView> {
    ref_edge("mob -> zone"@, d.id@, d.zone@, Namespace::Zones, None)
        + object_edge("mob -> faction"@, d.id@, opt_ref_target(d.faction), Namespace::Factions, None)
        + object_edge("mob -> mob kind"@, d.id@, opt_ref_target(d.mob_kind), Namespace::MobKinds, None)
        + object_edge("mob -> quality"@, d.id@, opt_ref_target(d.quality), Namespace::MobKinds, None)
        + object_edge("mob -> loot table"@, d.id@, opt_ref_target(d.loot_table), Namespace::LootTables, None)
        + object_edges("mob -> ability"@, d.id@, Namespace::Abilities, None, d.abilities@)
        + object_edges("mob -> quest"@, d.id@, Namespace::Quests, None, d.quests@)
        + loc_edges(d.id@, d.loc_ref, d.source.path@)
}

fn push_mob(out: &mut Vec<Edge>, d: &MobDocument)
    ensures
        edge_views(final(out)@) == edge_views(old(out)@) + mob_edges(*d),
{
    let ghost start = edge_views(out@);
    let id = d.id.as_str();
    push_ref(out, "mob -> zone", id, d.zone.as_str(), Namespace::Zones, None);
    push_optional(out, "mob -> faction", id, &d.faction, Namespace::Factions);
    push_optional(out, "mob -> mob kind", id, &d.mob_kind, Namespace::MobKinds);
    push_optional(out, "mob -> quality", id, &d.quality, Namespace::MobKinds);
    push_optional(out, "mob -> loot table", id, &d.loot_table, Namespace::LootTables);
    push_object_edges(out, "mob -> ability", id, Namespace::Abilities, None, &d.abilities);
    push_object_edges(out, "mob -> quest", id, Namespace::Quests, None, &d.quests);
    push_loc(out, id, &d.loc_ref, &d.source);
    assert(edge_views(out@) =~= start + mob_edges(*d));
}

pub open spec fn kind_edges(d: MobKindDocument) -> Seq<EdgeView> {
    object_edge("mob kind -> prototype"@, d.id@, opt_ref_target(d.prototype), Namespace::MobKinds, None)
        + object_edge("mob kind -> class"@, d.id@, opt_ref_target(d.mob_class), Namespace::MobKinds, None)
        + object_edge("mob kind -> quality"@, d.id@, opt_ref_target(d.quality), Namespace::MobKinds, None)
        + loc_edges(d.id@, d.loc_ref, d.source.path@)
}

fn push_kind(out: &mut Vec<Edge>, d: &MobKindDocument)
    ensures
        edge_views(final(out)@) == edge_views(old(out)@) + kind_edges(*d),
{
    let ghost start = edge_views(out@);
    let id = d.id.as_str();
    push_optional(out, "mob kind -> prototype", id, &d.prototype, Namespace::MobKinds);
    push_optional(out, "mob kind -> class", id, &d.mob_class, Namespace::MobKinds);
    push_optional(out, "mob kind -> quality", id, &d.quality, Namespace::MobKinds);
    push_loc(out, id, &d.loc_ref, &d.source);
    assert(edge_views(out@) =~= start + kind_edges(*d));
}

pub open spec fn faction_edges(d: FactionDocument) -> Seq<EdgeView> {
    relation_edges(d.id@, d.relations@) + loc_edges(d.id@, d.loc_ref, d.source.path@)
}

fn push_faction(out: &mut Vec<Edge>, d: &FactionDocument)
    ensures
        edge_views(final(out)@) == edge_views(old(out)@) + faction_edges(*d),
{
    let ghost start = edge_views(out@);
    push_relation_edges(out, d.id.as_str(), &d.relations);
    push_loc(out, d.id.as_str(), &d.loc_ref, &d.source);
    assert(edge_views(out@) =~= start + faction_edges(*d));
}

pub open spec fn quest_edges(d: QuestDocument) -> Seq<EdgeView> {
    ref_edge("quest -> zone"@, d.id@, d.zone@, Namespace::Zones, None)
        + object_edge("quest -> starter mob"@, d.id@, opt_ref_target(d.starter), Namespace::Mobs, None)
        + object_edge("quest -> finisher mob"@, d.id@, opt_ref_target(d.finisher), Namespace::Mobs, None)
        + prerequisite_edges(d.id@, d.prerequisites@)
        + objective_edges(d.id@, d.objectives@)
        + reward_edges(d.id@, d.rewards.mandatory_items@)
        + reward_edges(d.id@, d.rewards.alternative_items@)
        + loc_edges(d.id@, d.loc_ref, d.source.path@)
}

fn push_quest(out: &mut Vec<Edge>, d: &QuestDocument)
    ensures
        edge_views(final(out)@) == edge_views(old(out)@) + quest_edges(*d),
{
    let ghost start = edge_views(out@);
    let id = d.id.as_str();
    push_ref(out, "quest -> zone", id, d.zone.as_str(), Namespace::Zones, None);
    push_optional(out, "quest -> starter mob", id, &d.starter, Namespace::Mobs);
    push_optional(out, "quest -> finisher mob", id, &d.finisher, Namespace::Mobs);
    push_prerequisite_edges(out, id, &d.prerequisites);
    push_objective_edges(out, id, &d.objectives);
    push_reward_edges(out, id, &d.rewards.mandatory_items);
    push_reward_edges(out, id, &d.rewards.alternative_items);
    push_loc(out, id, &d.loc_ref, &d.source);
    assert(edge_views(out@) =~= start + quest_edges(*d));
}

/// The item edges of a loot tree in the order a stack walk visits them: a
/// node, then its children's subtrees from the last child to the first.
pub open spec fn loot_node_edges(referencer: Seq<char>, node: LootNodeDocument) -> Seq<EdgeView>
    decreases node,
{
    object_edge("loot table -> item"@, referencer, opt_ref_target(node.item), Namespace::Items, None)
        + loot_children_edges(referencer, node.entries@)
}

pub open spec fn loot_children_edges(referencer: Seq<char>, children: Seq<LootNodeDocument>) -> Seq<EdgeView>
    decreases children,
{
    if children.len() == 0 {
        Seq::<EdgeView>::empty()
    } else {
        loot_node_edges(referencer, children.last()) + loot_children_edges(referencer, children.drop_last())
    }
}

fn push_loot_node(out: &mut Vec<Edge>, referencer: &str, node: &LootNodeDocument)
    ensures
        edge_views(final(out)@) == edge_views(old(out)@) + loot_node_edges(referencer@, *node),
    decreases node,
{
    let ghost start = edge_views(out@);
    push_optional(out, "loot table -> item", referencer, &node.item, Namespace::Items);
    let ghost mid = edge_views(out@);
    let n = node.entries.len();
    let mut i: usize = n;
    let ghost children = node.entries@;
    assert(children.take(n as int) =~= children);
    while i > 0
        invariant
            i <= n,
            n == children.len(),
            children == node.entries@,
            edge_views(out@) + loot_children_edges(referencer@, children.take(i as int))
                == mid + loot_children_edges(referencer@, children),
        decreases i,
    {
        assert(children.take(i as int).drop_last() =~= children.take(i - 1));
        assert(children.take(i as int).last() == children[i - 1]);
        let ghost before = edge_views(out@);
        proof {
            assert(decreases_to!(node => node.entries));
            vstd::std_specs::vec::axiom_vec_index_decreases(node.entries, i - 1);
        }
        push_loot_node(out, referencer, &node.entries[i - 1]);
        assert(edge_views(out@) + loot_children_edges(referencer@, children.take(i - 1))
            =~= before + loot_children_edges(referencer@, children.take(i as int)));
        i = i - 1;
    }
    assert(loot_children_edges(referencer@, children.take(0)) =~= Seq::<EdgeView>::empty());
    assert(edge_views(out@) =~= start + loot_node_edges(referencer@, *node));
}

pub open spec fn chargen_edges(d: ChargenDocument) -> Seq<EdgeView> {
    ref_edge("chargen -> zone"@, d.id@, d.spawn_zone@, Namespace::Zones, None)
        + ref_edge("chargen -> faction"@, d.id@, d.faction@, Namespace::Factions, None)
        + loadout_edges(d.id@, d.starting_loadout@)
        + text_edges("chargen -> ability"@, d.id@, Namespace::Abilities, d.starting_abilities@)
        + text_edges("chargen -> quest"@, d.id@, Namespace::Quests, d.starting_quests@)
        + loc_edges(d.id@, d.loc_ref, d.source.path@)
}

fn push_chargen(out: &mut Vec<Edge>, d: &ChargenDocument)
    ensures
        edge_views(final(out)@) == edge_views(old(out)@) + chargen_edges(*d),
{
    let ghost start = edge_views(out@);
    let id = d.id.as_str();
    push_ref(out, "chargen -> zone", id, d.spawn_zone.as_str(), Namespace::Zones, None);
    push_ref(out, "chargen -> faction", id, d.faction.as_str(), Namespace::Factions, None);
    push_loadout_edges(out, id, &d.starting_loadout);
    push_text_edges(out, "chargen -> ability", id, Namespace::Abilities, &d.starting_abilities);
    push_text_edges(out, "chargen -> quest", id, Namespace::Quests, &d.starting_quests);
    push_loc(out, id, &d.loc_ref, &d.source);
    assert(edge_views(out@) =~= start + chargen_edges(*d));
}

/// Every edge of the authored chain, in the order the checker walks them.
pub open spec fn edges_of(t: SourceTree) -> Seq<EdgeView> {
    zone_list_edges(t.zones@)
        + placement_list_edges(t.placement_documents@)
        + table_list_edges(t.tables@)
        + mob_list_edges(t.mobs@)
        + kind_list_edges(t.mob_kinds@)
        + faction_list_edges(t.factions@)
        + ability_list_edges(t.abilities@)
        + route_list_edges(t.routes@)
        + quest_list_edges(t.quests@)
        + item_list_edges(t.items@)
        + loot_list_edges(t.loot_tables@)
        + chargen_list_edges(t.chargen_options@)
}

/// Every edge of the authored chain, in walking order.
pub fn reference_edges(tree: &SourceTree) -> (out: Vec<Edge>)
    ensures
        edge_views(out@) == edges_of(*tree),
{
    let mut out: Vec<Edge> = Vec::new();
    assert(edge_views(out@) =~= Seq::<EdgeView>::empty());
    push_zone_list_edges(&mut out, &tree.zones);
    push_placement_list_edges(&mut out, &tree.placement_documents);
    push_table_list_edges(&mut out, &tree.tables);
    push_mob_list_edges(&mut out, &tree.mobs);
    push_kind_list_edges(&mut out, &tree.mob_kinds);
    push_faction_list_edges(&mut out, &tree.factions);
    push_ability_list_edges(&mut out, &tree.abilities);
    push_route_list_edges(&mut out, &tree.routes);
    push_quest_list_edges(&mut out, &tree.quests);
    push_item_list_edges(&mut out, &tree.items);
    push_loot_list_edges(&mut out, &tree.loot_tables);
    push_chargen_list_edges(&mut out, &tree.chargen_options);
    assert(edge_views(out@) =~= edges_of(*tree));
    out
}

pub open spec fn object_edges(class: Seq<char>, referencer: Seq<char>, first: Namespace, second: Option<Namespace>, s: Seq<ObjectRef>) -> Seq<EdgeView>
    decreases s.len(),
{
    if s.len() == 0 {
        Seq::<EdgeView>::empty()
    } else {
        let x = s.last();
        object_edges(class, referencer, first, second, s.drop_last()) + object_edge(class, referencer, ref_target(x), first, second)
    }
}

fn push_object_edges(out: &mut Vec<Edge>, class: &str, referencer: &str, first: Namespace, second: Option<Namespace>, s: &Vec<ObjectRef>)
    ensures
        edge_views(final(out)@) == edge_views(old(out)@) + object_edges(class@, referencer@, first, second, s@),
{
    let ghost start = edge_views(out@);
    let mut i: usize = 0;
    assert(start + object_edges(class@, referencer@, first, second, s@.take(0)) =~= start);
    while i < s.len()
        invariant
            i <= s@.len(),
            start == edge_views(old(out)@),
            edge_views(out@) == start + object_edges(class@, referencer@, first, second, s@.take(i as int)),
        decreases s@.len() - i,
    {
        assert(s@.take(i + 1).drop_last() =~= s@.take(i as int));
        assert(s@.take(i + 1).last() == s@[i as int]);
        let item = &s[i];
        let ghost mid = edge_views(out@);
        push_object(out, class, referencer, item, first, second);
        assert(edge_views(out@) =~= start + object_edges(class@, referencer@, first, second, s@.take(i + 1)));
        i = i + 1;
    }
    assert(s@.take(s@.len() as int) =~= s@);
}

pub open spec fn text_edges(class: Seq<char>, referencer: Seq<char>, first: Namespace, s: Seq<String>) -> Seq<EdgeView>
    decreases s.len(),
{
    if s.len() == 0 {
        Seq::<EdgeView>::empty()
    } else {
        let x = s.last();
        text_edges(class, referencer, first, s.drop_last()) + ref_edge(class, referencer, x@, first, None)
    }
}

fn push_text_edges(out: &mut Vec<Edge>, class: &str, referencer: &str, first: Namespace, s: &Vec<String>)
    ensures
        edge_views(final(out)@) == edge_views(old(out)@) + text_edges(class@, referencer@, first, s@),
{
    let ghost start = edge_views(out@);
    let mut i: usize = 0;
    assert(start + text_edges(class@, referencer@, first, s@.take(0)) =~= start);
    while i < s.len()
        invariant
            i <= s@.len(),
            start == edge_views(old(out)@),
            edge_views(out@) == start + text_edges(class@, referencer@, first, s@.take(i as int)),
        decreases s@.len() - i,
    {
        assert(s@.take(i + 1).drop_last() =~= s@.take(i as int));
        assert(s@.take(i + 1).last() == s@[i as int]);
        let item = &s[i];
        let ghost mid = edge_views(out@);
        push_ref(out, class, referencer, item.as_str(), first, None);
        assert(edge_views(out@) =~= start + text_edges(class@, referencer@, first, s@.take(i + 1)));
        i = i + 1;
    }
    assert(s@.take(s@.len() as int) =~= s@);
}

pub open spec fn placed_edges(s: Seq<SourcePlacement>) -> Seq<EdgeView>
    decreases s.len(),
{
    if s.len() == 0 {
        Seq::<EdgeView>::empty()
    } else {
        let x = s.last();
        placed_edges(s.drop_last()) + placement_item_edges(x)
    }
}

fn push_placed_edges(out: &mut Vec<Edge>, s: &Vec<SourcePlacement>)
    ensures
        edge_views(final(out)@) == edge_views(old(out)@) + placed_edges(s@),
{
    let ghost start = edge_views(out@);
    let mut i: usize = 0;
    assert(start + placed_edges(s@.take(0)) =~= start);
    while i < s.len()
        invariant
            i <= s@.len(),
            start == edge_views(old(out)@),
            edge_views(out@) == start + placed_edges(s@.take(i as int)),
        decreases s@.len() - i,
    {
        assert(s@.take(i + 1).drop_last() =~= s@.take(i as int));
        assert(s@.take(i + 1).last() == s@[i as int]);
        let item = &s[i];
        let ghost mid = edge_views(out@);
        push_placement_item(out, item);
        assert(edge_views(out@) =~= start + placed_edges(s@.take(i + 1)));
        i = i + 1;
    }
    assert(s@.take(s@.len() as int) =~= s@);
}

pub open spec fn table_entry_edges(referencer: Seq<char>, s: Seq<SourceTableEntry>) -> Seq<EdgeView>
    decreases s.len(),
{
    if s.len() == 0 {
        Seq::<EdgeView>::empty()
    } else {
        let x = s.last();
        table_entry_edges(referencer, s.drop_last()) + object_edge("spawn table -> mob"@, referencer, ref_target(x.object), Namespace::Mobs, None)
    }
}

fn push_table_entry_edges(out: &mut Vec<Edge>, referencer: &str, s: &Vec<SourceTableEntry>)
    ensures
        edge_views(final(out)@) == edge_views(old(out)@) + table_entry_edges(referencer@, s@),
{
    let ghost start = edge_views(out@);
    let mut i: usize = 0;
    assert(start + table_entry_edges(referencer@, s@.take(0)) =~= start);
    while i < s.len()
        invariant
            i <= s@.len(),
            start == edge_views(old(out)@),
            edge_views(out@) == start + table_entry_edges(referencer@, s@.take(i as int)),
        decreases s@.len() - i,
    {
        assert(s@.take(i + 1).drop_last() =~= s@.take(i as int));
        assert(s@.take(i + 1).last() == s@[i as int]);
        let item = &s[i];
        let ghost mid = edge_views(out@);
        push_object(out, "spawn table -> mob", referencer, &item.object, Namespace::Mobs, None);
        assert(edge_views(out@) =~= start + table_entry_edges(referencer@, s@.take(i + 1)));
        i = i + 1;
    }
    assert(s@.take(s@.len() as int) =~= s@);
}

pub open spec fn relation_edges(referencer: Seq<char>, s: Seq<FactionRelationDocument>) -> Seq<EdgeView>
    decreases s.len(),
{
    if s.len() == 0 {
        Seq::<EdgeView>::empty()
    } else {
        let x = s.last();
        relation_edges(referencer, s.drop_last()) + ref_edge("faction -> faction"@, referencer, x.faction@, Namespace::Factions, None)
    }
}

fn push_relation_edges(out: &mut Vec<Edge>, referencer: &str, s: &Vec<FactionRelationDocument>)
    ensures
        edge_views(final(out)@) == edge_views(old(out)@) + relation_edges(referencer@, s@),
{
    let ghost start = edge_views(out@);
    let mut i: usize = 0;
    assert(start + relation_edges(referencer@, s@.take(0)) =~= start);
    while i < s.len()
        invariant
            i <= s@.len(),
            start == edge_views(old(out)@),
            edge_views(out@) == start + relation_edges(referencer@, s@.take(i as int)),
        decreases s@.len() - i,
    {
        assert(s@.take(i + 1).drop_last() =~= s@.take(i as int));
        assert(s@.take(i + 1).last() == s@[i as int]);
        let item = &s[i];
        let ghost mid = edge_views(out@);
        push_ref(out, "faction -> faction", referencer, item.faction.as_str(), Namespace::Factions, None);
        assert(edge_views(out@) =~= start + relation_edges(referencer@, s@.take(i + 1)));
        i = i + 1;
    }
    assert(s@.take(s@.len() as int) =~= s@);
}

pub open spec fn prerequisite_edges(referencer: Seq<char>, s: Seq<QuestPrerequisiteDocument>) -> Seq<EdgeView>
    decreases s.len(),
{
    if s.len() == 0 {
        Seq::<EdgeView>::empty()
    } else {
        let x = s.last();
        prerequisite_edges(referencer, s.drop_last()) + object_edge("quest -> prerequisite quest"@, referencer, ref_target(x.quest), Namespace::Quests, None)
    }
}

fn push_prerequisite_edges(out: &mut Vec<Edge>, referencer: &str, s: &Vec<QuestPrerequisiteDocument>)
    ensures
        edge_views(final(out)@) == edge_views(old(out)@) + prerequisite_edges(referencer@, s@),
{
    let ghost start = edge_views(out@);
    let mut i: usize = 0;
    assert(start + prerequisite_edges(referencer@, s@.take(0)) =~= start);
    while i < s.len()
        invariant
            i <= s@.len(),
            start == edge_views(old(out)@),
            edge_views(out@) == start + prerequisite_edges(referencer@, s@.take(i as int)),
        decreases s@.len() - i,
    {
        assert(s@.take(i + 1).drop_last() =~= s@.take(i as int));
        assert(s@.take(i + 1).last() == s@[i as int]);
        let item = &s[i];
        let ghost mid = edge_views(out@);
        push_object(out, "quest -> prerequisite quest", referencer, &item.quest, Namespace::Quests, None);
        assert(edge_views(out@) =~= start + prerequisite_edges(referencer@, s@.take(i + 1)));
        i = i + 1;
    }
    assert(s@.take(s@.len() as int) =~= s@);
}

pub open spec fn objective_edges(referencer: Seq<char>, s: Seq<QuestObjectiveDocument>) -> Seq<EdgeView>
    decreases s.len(),
{
    if s.len() == 0 {
        Seq::<EdgeView>::empty()
    } else {
        let x = s.last();
        objective_edges(referencer, s.drop_last()) + object_edges("quest objective -> target"@, referencer, Namespace::Items, Some(Namespace::Mobs), x.targets@)
    }
}

fn push_objective_edges(out: &mut Vec<Edge>, referencer: &str, s: &Vec<QuestObjectiveDocument>)
    ensures
        edge_views(final(out)@) == edge_views(old(out)@) + objective_edges(referencer@, s@),
{
    let ghost start = edge_views(out@);
    let mut i: usize = 0;
    assert(start + objective_edges(referencer@, s@.take(0)) =~= start);
    while i < s.len()
        invariant
            i <= s@.len(),
            start == edge_views(old(out)@),
            edge_views(out@) == start + objective_edges(referencer@, s@.take(i as int)),
        decreases s@.len() - i,
    {
        assert(s@.take(i + 1).drop_last() =~= s@.take(i as int));
        assert(s@.take(i + 1).last() == s@[i as int]);
        let item = &s[i];
        let ghost mid = edge_views(out@);
        push_object_edges(out, "quest objective -> target", referencer, Namespace::Items, Some(Namespace::Mobs), &item.targets);
        assert(edge_views(out@) =~= start + objective_edges(referencer@, s@.take(i + 1)));
        i = i + 1;
    }
    assert(s@.take(s@.len() as int) =~= s@);
}

pub open spec fn reward_edges(referencer: Seq<char>, s: Seq<QuestRewardItemDocument>) -> Seq<EdgeView>
    decreases s.len(),
{
    if s.len() == 0 {
        Seq::<EdgeView>::empty()
    } else {
        let x = s.last();
        reward_edges(referencer, s.drop_last()) + object_edge("quest -> reward item"@, referencer, ref_target(x.item), Namespace::Items, None)
    }
}

fn push_reward_edges(out: &mut Vec<Edge>, referencer: &str, s: &Vec<QuestRewardItemDocument>)
    ensures
        edge_views(final(out)@) == edge_views(old(out)@) + reward_edges(referencer@, s@),
{
    let ghost start = edge_views(out@);
    let mut i: usize = 0;
    assert(start + reward_edges(referencer@, s@.take(0)) =~= start);
    while i < s.len()
        invariant
            i <= s@.len(),
            start == edge_views(old(out)@),
            edge_views(out@) == start + reward_edges(referencer@, s@.take(i as int)),
        decreases s@.len() - i,
    {
        assert(s@.take(i + 1).drop_last() =~= s@.take(i as int));
        assert(s@.take(i + 1).last() == s@[i as int]);
        let item = &s[i];
        let ghost mid = edge_views(out@);
        push_object(out, "quest -> reward item", referencer, &item.item, Namespace::Items, None);
        assert(edge_views(out@) =~= start + reward_edges(referencer@, s@.take(i + 1)));
        i = i + 1;
    }
    assert(s@.take(s@.len() as int) =~= s@);
}

pub open spec fn loadout_edges(referencer: Seq<char>, s: Seq<SourceLoadoutEntry>) -> Seq<EdgeView>
    decreases s.len(),
{
    if s.len() == 0 {
        Seq::<EdgeView>::empty()
    } else {
        let x = s.last();
        loadout_edges(referencer, s.drop_last()) + ref_edge("chargen -> loadout item"@, referencer, x.item_id@, Namespace::Items, None)
    }
}

fn push_loadout_edges(out: &mut Vec<Edge>, referencer: &str, s: &Vec<SourceLoadoutEntry>)
    ensures
        edge_views(final(out)@) == edge_views(old(out)@) + loadout_edges(referencer@, s@),
{
    let ghost start = edge_views(out@);
    let mut i: usize = 0;
    assert(start + loadout_edges(referencer@, s@.take(0)) =~= start);
    while i < s.len()
        invariant
            i <= s@.len(),
            start == edge_views(old(out)@),
            edge_views(out@) == start + loadout_edges(referencer@, s@.take(i as int)),
        decreases s@.len() - i,
    {
        assert(s@.take(i + 1).drop_last() =~= s@.take(i as int));
        assert(s@.take(i + 1).last() == s@[i as int]);
        let item = &s[i];
        let ghost mid = edge_views(out@);
        push_ref(out, "chargen -> loadout item", referencer, item.item_id.as_str(), Namespace::Items, None);
        assert(edge_views(out@) =~= start + loadout_edges(referencer@, s@.take(i + 1)));
        i = i + 1;
    }
    assert(s@.take(s@.len() as int) =~= s@);
}

pub open spec fn zone_list_edges(s: Seq<ZoneDocument>) -> Seq<EdgeView>
    decreases s.len(),
{
    if s.len() == 0 {
        Seq::<EdgeView>::empty()
    } else {
        let x = s.last();
        zone_list_edges(s.drop_last()) + zone_edges(x)
    }
}

fn push_zone_list_edges(out: &mut Vec<Edge>, s: &Vec<ZoneDocument>)
    ensures
        edge_views(final(out)@) == edge_views(old(out)@) + zone_list_edges(s@),
{
    let ghost start = edge_views(out@);
    let mut i: usize = 0;
    assert(start + zone_list_edges(s@.take(0)) =~= start);
    while i < s.len()
        invariant
            i <= s@.len(),
            start == edge_views(old(out)@),
            edge_views(out@) == start + zone_list_edges(s@.take(i as int)),
        decreases s@.len() - i,
    {
        assert(s@.take(i + 1).drop_last() =~= s@.take(i as int));
        assert(s@.take(i + 1).last() == s@[i as int]);
        let item = &s[i];
        let ghost mid = edge_views(out@);
        push_zone(out, item);
        assert(edge_views(out@) =~= start + zone_list_edges(s@.take(i + 1)));
        i = i + 1;
    }
    assert(s@.take(s@.len() as int) =~= s@);
}

pub open spec fn placement_list_edges(s: Seq<PlacementDocument>) -> Seq<EdgeView>
    decreases s.len(),
{
    if s.len() == 0 {
        Seq::<EdgeView>::empty()
    } else {
        let x = s.last();
        placement_list_edges(s.drop_last()) + placement_edges(x)
    }
}

fn push_placement_list_edges(out: &mut Vec<Edge>, s: &Vec<PlacementDocument>)
    ensures
        edge_views(final(out)@) == edge_views(old(out)@) + placement_list_edges(s@),
{
    let ghost start = edge_views(out@);
    let mut i: usize = 0;
    assert(start + placement_list_edges(s@.take(0)) =~= start);
    while i < s.len()
        invariant
            i <= s@.len(),
            start == edge_views(old(out)@),
            edge_views(out@) == start + placement_list_edges(s@.take(i as int)),
        decreases s@.len() - i,
    {
        assert(s@.take(i + 1).drop_last() =~= s@.take(i as int));
        assert(s@.take(i + 1).last() == s@[i as int]);
        let item = &s[i];
        let ghost mid = edge_views(out@);
        push_placement(out, item);
        assert(edge_views(out@) =~= start + placement_list_edges(s@.take(i + 1)));
        i = i + 1;
    }
    assert(s@.take(s@.len() as int) =~= s@);
}

pub open spec fn table_list_edges(s: Seq<SpawnTableDocument>) -> Seq<EdgeView>
    decreases s.len(),
{
    if s.len() == 0 {
        Seq::<EdgeView>::empty()
    } else {
        let x = s.last();
        table_list_edges(s.drop_last()) + table_edges(x)
    }
}

fn push_table_list_edges(out: &mut Vec<Edge>, s: &Vec<SpawnTableDocument>)
    ensures
        edge_views(final(out)@) == edge_views(old(out)@) + table_list_edges(s@),
{
    let ghost start = edge_views(out@);
    let mut i: usize = 0;
    assert(start + table_list_edges(s@.take(0)) =~= start);
    while i < s.len()
        invariant
            i <= s@.len(),
            start == edge_views(old(out)@),
            edge_views(out@) == start + table_list_edges(s@.take(i as int)),
        decreases s@.len() - i,
    {
        assert(s@.take(i + 1).drop_last() =~= s@.take(i as int));
        assert(s@.take(i + 1).last() == s@[i as int]);
        let item = &s[i];
        let ghost mid = edge_views(out@);
        push_table(out, item);
        assert(edge_views(out@) =~= start + table_list_edges(s@.take(i + 1)));
        i = i + 1;
    }
    assert(s@.take(s@.len() as int) =~= s@);
}

pub open spec fn mob_list_edges(s: Seq<MobDocument>) -> Seq<EdgeView>
    decreases s.len(),
{
    if s.len() == 0 {
        Seq::<EdgeView>::empty()
    } else {
        let x = s.last();
        mob_list_edges(s.drop_last()) + mob_edges(x)
    }
}

fn push_mob_list_edges(out: &mut Vec<Edge>, s: &Vec<MobDocument>)
    ensures
        edge_views(final(out)@) == edge_views(old(out)@) + mob_list_edges(s@),
{
    let ghost start = edge_views(out@);
    let mut i: usize = 0;
    assert(start + mob_list_edges(s@.take(0)) =~= start);
    while i < s.len()
        invariant
            i <= s@.len(),
            start == edge_views(old(out)@),
            edge_views(out@) == start + mob_list_edges(s@.take(i as int)),
        decreases s@.len() - i,
    {
        assert(s@.take(i + 1).drop_last() =~= s@.take(i as int));
        assert(s@.take(i + 1).last() == s@[i as int]);
        let item = &s[i];
        let ghost mid = edge_views(out@);
        push_mob(out, item);
        assert(edge_views(out@) =~= start + mob_list_edges(s@.take(i + 1)));
        i = i + 1;
    }
    assert(s@.take(s@.len() as int) =~= s@);
}

pub open spec fn kind_list_edges(s: Seq<MobKindDocument>) -> Seq<EdgeView>
    decreases s.len(),
{
    if s.len() == 0 {
        Seq::<EdgeView>::empty()
    } else {
        let x = s.last();
        kind_list_edges(s.drop_last()) + kind_edges(x)
    }
}

fn push_kind_list_edges(out: &mut Vec<Edge>, s: &Vec<MobKindDocument>)
    ensures
        edge_views(final(out)@) == edge_views(old(out)@) + kind_list_edges(s@),
{
    let ghost start = edge_views(out@);
    let mut i: usize = 0;
    assert(start + kind_list_edges(s@.take(0)) =~= start);
    while i < s.len()
        invariant
            i <= s@.len(),
            start == edge_views(old(out)@),
            edge_views(out@) == start + kind_list_edges(s@.take(i as int)),
        decreases s@.len() - i,
    {
        assert(s@.take(i + 1).drop_last() =~= s@.take(i as int));
        assert(s@.take(i + 1).last() == s@[i as int]);
        let item = &s[i];
        let ghost mid = edge_views(out@);
        push_kind(out, item);
        assert(edge_views(out@) =~= start + kind_list_edges(s@.take(i + 1)));
        i = i + 1;
    }
    assert(s@.take(s@.len() as int) =~= s@);
}

pub open spec fn faction_list_edges(s: Seq<FactionDocument>) -> Seq<EdgeView>
    decreases s.len(),
{
    if s.len() == 0 {
        Seq::<EdgeView>::empty()
    } else {
        let x = s.last();
        faction_list_edges(s.drop_last()) + faction_edges(x)
    }
}

fn push_faction_list_edges(out: &mut Vec<Edge>, s: &Vec<FactionDocument>)
    ensures
        edge_views(final(out)@) == edge_views(old(out)@) + faction_list_edges(s@),
{
    let ghost start = edge_views(out@);
    let mut i: usize = 0;
    assert(start + faction_list_edges(s@.take(0)) =~= start);
    while i < s.len()
        invariant
            i <= s@.len(),
            start == edge_views(old(out)@),
            edge_views(out@) == start + faction_list_edges(s@.take(i as int)),
        decreases s@.len() - i,
    {
        assert(s@.take(i + 1).drop_last() =~= s@.take(i as int));
        assert(s@.take(i + 1).last() == s@[i as int]);
        let item = &s[i];
        let ghost mid = edge_views(out@);
        push_faction(out, item);
        assert(edge_views(out@) =~= start + faction_list_edges(s@.take(i + 1)));
        i = i + 1;
    }
    assert(s@.take(s@.len() as int) =~= s@);
}

pub open spec fn ability_list_edges(s: Seq<AbilityDocument>) -> Seq<EdgeView>
    decreases s.len(),
{
    if s.len() == 0 {
        Seq::<EdgeView>::empty()
    } else {
        let x = s.last();
        ability_list_edges(s.drop_last()) + loc_edges(x.id@, x.loc_ref, x.source.path@)
    }
}

fn push_ability_list_edges(out: &mut Vec<Edge>, s: &Vec<AbilityDocument>)
    ensures
        edge_views(final(out)@) == edge_views(old(out)@) + ability_list_edges(s@),
{
    let ghost start = edge_views(out@);
    let mut i: usize = 0;
    assert(start + ability_list_edges(s@.take(0)) =~= start);
    while i < s.len()
        invariant
            i <= s@.len(),
            start == edge_views(old(out)@),
            edge_views(out@) == start + ability_list_edges(s@.take(i as int)),
        decreases s@.len() - i,
    {
        assert(s@.take(i + 1).drop_last() =~= s@.take(i as int));
        assert(s@.take(i + 1).last() == s@[i as int]);
        let item = &s[i];
        let ghost mid = edge_views(out@);
        push_loc(out, item.id.as_str(), &item.loc_ref, &item.source);
        assert(edge_views(out@) =~= start + ability_list_edges(s@.take(i + 1)));
        i = i + 1;
    }
    assert(s@.take(s@.len() as int) =~= s@);
}

pub open spec fn route_list_edges(s: Seq<RouteDocument>) -> Seq<EdgeView>
    decreases s.len(),
{
    if s.len() == 0 {
        Seq::<EdgeView>::empty()
    } else {
        let x = s.last();
        route_list_edges(s.drop_last()) + ref_edge("route -> zone"@, x.id@, x.zone@, Namespace::Zones, None)
    }
}

fn push_route_list_edges(out: &mut Vec<Edge>, s: &Vec<RouteDocument>)
    ensures
        edge_views(final(out)@) == edge_views(old(out)@) + route_list_edges(s@),
{
    let ghost start = edge_views(out@);
    let mut i: usize = 0;
    assert(start + route_list_edges(s@.take(0)) =~= start);
    while i < s.len()
        invariant
            i <= s@.len(),
            start == edge_views(old(out)@),
            edge_views(out@) == start + route_list_edges(s@.take(i as int)),
        decreases s@.len() - i,
    {
        assert(s@.take(i + 1).drop_last() =~= s@.take(i as int));
        assert(s@.take(i + 1).last() == s@[i as int]);
        let item = &s[i];
        let ghost mid = edge_views(out@);
        push_ref(out, "route -> zone", item.id.as_str(), item.zone.as_str(), Namespace::Zones, None);
        assert(edge_views(out@) =~= start + route_list_edges(s@.take(i + 1)));
        i = i + 1;
    }
    assert(s@.take(s@.len() as int) =~= s@);
}

pub open spec fn quest_list_edges(s: Seq<QuestDocument>) -> Seq<EdgeView>
    decreases s.len(),
{
    if s.len() == 0 {
        Seq::<EdgeView>::empty()
    } else {
        let x = s.last();
        quest_list_edges(s.drop_last()) + quest_edges(x)
    }
}

fn push_quest_list_edges(out: &mut Vec<Edge>, s: &Vec<QuestDocument>)
    ensures
        edge_views(final(out)@) == edge_views(old(out)@) + quest_list_edges(s@),
{
    let ghost start = edge_views(out@);
    let mut i: usize = 0;
    assert(start + quest_list_edges(s@.take(0)) =~= start);
    while i < s.len()
        invariant
            i <= s@.len(),
            start == edge_views(old(out)@),
            edge_views(out@) == start + quest_list_edges(s@.take(i as int)),
        decreases s@.len() - i,
    {
        assert(s@.take(i + 1).drop_last() =~= s@.take(i as int));
        assert(s@.take(i + 1).last() == s@[i as int]);
        let item = &s[i];
        let ghost mid = edge_views(out@);
        push_quest(out, item);
        assert(edge_views(out@) =~= start + quest_list_edges(s@.take(i + 1)));
        i = i + 1;
    }
    assert(s@.take(s@.len() as int) =~= s@);
}

pub open spec fn item_list_edges(s: Seq<ItemDocument>) -> Seq<EdgeView>
    decreases s.len(),
{
    if s.len() == 0 {
        Seq::<EdgeView>::empty()
    } else {
        let x = s.last();
        item_list_edges(s.drop_last()) + loc_edges(x.id@, x.loc_ref, x.source.path@)
    }
}

fn push_item_list_edges(out: &mut Vec<Edge>, s: &Vec<ItemDocument>)
    ensures
        edge_views(final(out)@) == edge_views(old(out)@) + item_list_edges(s@),
{
    let ghost start = edge_views(out@);
    let mut i: usize = 0;
    assert(start + item_list_edges(s@.take(0)) =~= start);
    while i < s.len()
        invariant
            i <= s@.len(),
            start == edge_views(old(out)@),
            edge_views(out@) == start + item_list_edges(s@.take(i as int)),
        decreases s@.len() - i,
    {
        assert(s@.take(i + 1).drop_last() =~= s@.take(i as int));
        assert(s@.take(i + 1).last() == s@[i as int]);
        let item = &s[i];
        let ghost mid = edge_views(out@);
        push_loc(out, item.id.as_str(), &item.loc_ref, &item.source);
        assert(edge_views(out@) =~= start + item_list_edges(s@.take(i + 1)));
        i = i + 1;
    }
    assert(s@.take(s@.len() as int) =~= s@);
}

pub open spec fn loot_list_edges(s: Seq<LootTableDocument>) -> Seq<EdgeView>
    decreases s.len(),
{
    if s.len() == 0 {
        Seq::<EdgeView>::empty()
    } else {
        let x = s.last();
        loot_list_edges(s.drop_last()) + loot_node_edges(x.id@, x.root)
    }
}

fn push_loot_list_edges(out: &mut Vec<Edge>, s: &Vec<LootTableDocument>)
    ensures
        edge_views(final(out)@) == edge_views(old(out)@) + loot_list_edges(s@),
{
    let ghost start = edge_views(out@);
    let mut i: usize = 0;
    assert(start + loot_list_edges(s@.take(0)) =~= start);
    while i < s.len()
        invariant
            i <= s@.len(),
            start == edge_views(old(out)@),
            edge_views(out@) == start + loot_list_edges(s@.take(i as int)),
        decreases s@.len() - i,
    {
        assert(s@.take(i + 1).drop_last() =~= s@.take(i as int));
        assert(s@.take(i + 1).last() == s@[i as int]);
        let item = &s[i];
        let ghost mid = edge_views(out@);
        push_loot_node(out, item.id.as_str(), &item.root);
        assert(edge_views(out@) =~= start + loot_list_edges(s@.take(i + 1)));
        i = i + 1;
    }
    assert(s@.take(s@.len() as int) =~= s@);
}

pub open spec fn chargen_list_edges(s: Seq<ChargenDocument>) -> Seq<EdgeView>
    decreases s.len(),
{
    if s.len() == 0 {
        Seq::<EdgeView>::empty()
    } else {
        let x = s.last();
        chargen_list_edges(s.drop_last()) + chargen_edges(x)
    }
}

fn push_chargen_list_edges(out: &mut Vec<Edge>, s: &Vec<ChargenDocument>)
    ensures
        edge_views(final(out)@) == edge_views(old(out)@) + chargen_list_edges(s@),
{
    let ghost start = edge_views(out@);
    let mut i: usize = 0;
    assert(start + chargen_list_edges(s@.take(0)) =~= start);
    while i < s.len()
        invariant
            i <= s@.len(),
            start == edge_views(old(out)@),
            edge_views(out@) == start + chargen_list_edges(s@.take(i as int)),
        decreases s@.len() - i,
    {
        assert(s@.take(i + 1).drop_last() =~= s@.take(i as int));
        assert(s@.take(i + 1).last() == s@[i as int]);
        let item = &s[i];
        let ghost mid = edge_views(out@);
        push_chargen(out, item);
        assert(edge_views(out@) =~= start + chargen_list_edges(s@.take(i + 1)));
        i = i + 1;
    }
    assert(s@.take(s@.len() as int) =~= s@);
}


// ----- the universe and the pass ----------------------------------------------

/// Every id the pack carries, grouped by the document type that owns it.
#[derive(Debug, Default)]
pub struct Universe {
    pub zone_slug: String,
    pub zones: Vec<String>,
    pub mobs: Vec<String>,
    pub spawn_tables: Vec<String>,
    pub routes: Vec<String>,
    pub quests: Vec<String>,
    pub factions: Vec<String>,
    pub mob_kinds: Vec<String>,
    pub abilities: Vec<String>,
    pub items: Vec<String>,
    pub loot_tables: Vec<String>,
    pub level_curves: Vec<String>,
}

pub open spec fn namespace_ids(u: Universe, n: Namespace) -> Seq<Seq<char>> {
    text_views(match n {
        Namespace::Zones => u.zones,
        Namespace::Mobs => u.mobs,
        Namespace::SpawnTables => u.spawn_tables,
        Namespace::Routes => u.routes,
        Namespace::Quests => u.quests,
        Namespace::Factions => u.factions,
        Namespace::MobKinds => u.mob_kinds,
        Namespace::Abilities => u.abilities,
        Namespace::Items => u.items,
        Namespace::LootTables => u.loot_tables,
        Namespace::LevelCurves => u.level_curves,
    }@)
}

/// Whether `target` is an id of namespace `n`, or of `second` when given.
pub open spec fn carried(u: Universe, first: Namespace, second: Option<Namespace>, target: Seq<char>) -> bool {
    namespace_ids(u, first).contains(target) || (second matches Some(n) && namespace_ids(u, n).contains(target))
}

pub open spec fn empty_report() -> ReportView {
    ReportView {
        resolved: 0,
        dangling: Seq::empty(),
        external: Seq::empty(),
        unmodelled: Seq::empty(),
        gaps: Seq::empty(),
    }
}

/// What one edge adds to a report. An empty target is no reference; an
/// interactive object is unmodelled; a carried id resolves; an id of another
/// zone is external; anything else dangles. A localization key resolves when
/// the locale carries a candidate and is a gap otherwise.
pub open spec fn apply_edge(r: ReportView, e: EdgeView, u: Universe, keys: Set<Seq<char>>) -> ReportView {
    match e {
        EdgeView::Reference { class, referencer, target, first, second } => {
            if target.len() == 0 {
                r
            } else if has_prefix(target, interactive_prefix()) {
                ReportView { unmodelled: r.unmodelled.push((class, referencer, target)), ..r }
            } else if carried(u, first, second, target) {
                ReportView { resolved: r.resolved + 1, ..r }
            } else if foreign_zone_of(target, u.zone_slug@) is Some {
                ReportView { external: r.external.push((class, referencer, target, foreign_zone_of(target, u.zone_slug@)->0)), ..r }
            } else {
                ReportView { dangling: r.dangling.push((class, referencer, target)), ..r }
            }
        },
        EdgeView::Locale { referencer, field, authored, source } => {
            let res = resolved_of(keys, authored, source);
            if res.1 {
                ReportView { resolved: r.resolved + 1, ..r }
            } else {
                ReportView { gaps: r.gaps.push((referencer, field, res.0)), ..r }
            }
        },
    }
}

/// The report after walking `es` in order, starting from `r`.
pub open spec fn run_edges(r: ReportView, es: Seq<EdgeView>, u: Universe, keys: Set<Seq<char>>) -> ReportView
    decreases es.len(),
{
    if es.len() == 0 {
        r
    } else {
        apply_edge(run_edges(r, es.drop_last(), u, keys), es.last(), u, keys)
    }
}

fn holds_id(ids: &Vec<String>, target: &str) -> (r: bool)
    ensures
        r == text_views(ids@).contains(target@),
{
    let t = chars_of(target);
    let mut i: usize = 0;
    while i < ids.len()
        invariant
            i <= ids@.len(),
            t@ == target@,
            forall|k: int| 0 <= k < i ==> text_views(ids@)[k] != target@,
        decreases ids@.len() - i,
    {
        assert(text_views(ids@)[i as int] == ids@[i as int]@);
        if eq_str(t.as_slice(), ids[i].as_str()) {
            return true;
        }
        i = i + 1;
    }
    false
}

fn pick(u: &Universe, n: Namespace) -> (ids: &Vec<String>)
    ensures
        text_views(ids@) == namespace_ids(*u, n),
{
    match n {
        Namespace::Zones => &u.zones,
        Namespace::Mobs => &u.mobs,
        Namespace::SpawnTables => &u.spawn_tables,
        Namespace::Routes => &u.routes,
        Namespace::Quests => &u.quests,
        Namespace::Factions => &u.factions,
        Namespace::MobKinds => &u.mob_kinds,
        Namespace::Abilities => &u.abilities,
        Namespace::Items => &u.items,
        Namespace::LootTables => &u.loot_tables,
        Namespace::LevelCurves => &u.level_curves,
    }
}

fn is_carried(u: &Universe, first: Namespace, second: Option<Namespace>, target: &str) -> (r: bool)
    ensures
        r == carried(*u, first, second, target@),
{
    if holds_id(pick(u, first), target) {
        return true;
    }
    match second {
        Some(n) => holds_id(pick(u, n), target),
        None => false,
    }
}

impl ReferenceReport {
    fn apply(&mut self, edge: &Edge, universe: &Universe, locales: &LocaleIndex)
        requires
            old(self).resolved < usize::MAX,
        ensures
            final(self)@ == apply_edge(old(self)@, edge_view(*edge), *universe, locales@),
            final(self).resolved <= old(self).resolved + 1,
    {
        match edge {
            Edge::Reference { class, referencer, target, first, second } => {
                let t = chars_of(target.as_str());
                if t.len() == 0 {
                    return;
                }
                if starts_with_str(t.as_slice(), "item.interactive-objects.") {
                    let ghost before = self@;
                    let u = UnmodelledRef { class: class.clone(), referencer: referencer.clone(), target: target.clone() };
                    self.unmodelled.push(u);
                    assert(unmodelled_views(self.unmodelled@) =~= before.unmodelled.push((class@, referencer@, target@)));
                    return;
                }
                if is_carried(universe, *first, *second, target.as_str()) {
                    self.resolved = self.resolved + 1;
                    return;
                }
                match foreign_zone(target.as_str(), universe.zone_slug.as_str()) {
                    Some(zone) => {
                        let ghost before = self@;
                        let x = ExternalRef { class: class.clone(), referencer: referencer.clone(), target: target.clone(), zone };
                        self.external.push(x);
                        assert(external_views(self.external@) =~= before.external.push((class@, referencer@, target@, x.zone@)));
                    },
                    None => {
                        let ghost before = self@;
                        let d = DanglingRef { class: class.clone(), referencer: referencer.clone(), target: target.clone() };
                        self.dangling.push(d);
                        assert(dangling_views(self.dangling@) =~= before.dangling.push((class@, referencer@, target@)));
                    },
                }
            },
            Edge::Locale { referencer, field, authored, source } => {
                let provenance = Provenance { path: source.clone() };
                let resolved = locales.resolve(authored.as_str(), &provenance);
                if resolved.found {
                    self.resolved = self.resolved + 1;
                } else {
                    let ghost before = self@;
                    let g = LocaleGap { referencer: referencer.clone(), field: field.clone(), key: resolved.key };
                    self.locale_gaps.push(g);
                    assert(gap_views(self.locale_gaps@) =~= before.gaps.push((referencer@, field@, g.key@)));
                }
            },
        }
    }
}

/// Walks every edge of the authored chain and sorts each into resolved,
/// dangling, external, unmodelled or a locale gap.
pub fn check(tree: &SourceTree, universe: &Universe, locales: &LocaleIndex) -> (r: ReferenceReport)
    ensures
        r@ == run_edges(empty_report(), edges_of(*tree), *universe, locales@),
{
    let edges = reference_edges(tree);
    let ghost es = edge_views(edges@);
    let mut report = ReferenceReport {
        resolved: 0,
        dangling: Vec::new(),
        external: Vec::new(),
        unmodelled: Vec::new(),
        locale_gaps: Vec::new(),
    };
    assert(dangling_views(report.dangling@) =~= Seq::empty());
    assert(external_views(report.external@) =~= Seq::empty());
    assert(unmodelled_views(report.unmodelled@) =~= Seq::empty());
    assert(gap_views(report.locale_gaps@) =~= Seq::empty());
    assert(report@ == empty_report());
    assert(es.take(0) =~= Seq::<EdgeView>::empty());
    let mut i: usize = 0;
    while i < edges.len()
        invariant
            i <= edges@.len(),
            es == edge_views(edges@),
            es == edges_of(*tree),
            report.resolved <= i,
            report@ == run_edges(empty_report(), es.take(i as int), *universe, locales@),
        decreases edges@.len() - i,
    {
        assert(es.take(i + 1).drop_last() =~= es.take(i as int));
        assert(es.take(i + 1).last() == edge_view(edges@[i as int]));
        report.apply(&edges[i], universe, locales);
        i = i + 1;
    }
    assert(es.take(edges@.len() as int) =~= es);
    report
}


// ----- the universe of a tree ------------------------------------------------

/// A document with a canonical id.
pub trait Identified {
    spec fn id_view(&self) -> Seq<char>;

    fn id_text(&self) -> (r: &str)
        ensures
            r@ == self.id_view();
}

impl Identified for ZoneDocument {
    open spec fn id_view(&self) -> Seq<char> {
        self.id@
    }

    fn id_text(&self) -> (r: &str) {
        self.id.as_str()
    }
}

impl Identified for MobDocument {
    open spec fn id_view(&self) -> Seq<char> {
        self.id@
    }

    fn id_text(&self) -> (r: &str) {
        self.id.as_str()
    }
}

impl Identified for SpawnTableDocument {
    open spec fn id_view(&self) -> Seq<char> {
        self.id@
    }

    fn id_text(&self) -> (r: &str) {
        self.id.as_str()
    }
}

impl Identified for RouteDocument {
    open spec fn id_view(&self) -> Seq<char> {
        self.id@
    }

    fn id_text(&self) -> (r: &str) {
        self.id.as_str()
    }
}

impl Identified for QuestDocument {
    open spec fn id_view(&self) -> Seq<char> {
        self.id@
    }

    fn id_text(&self) -> (r: &str) {
        self.id.as_str()
    }
}

impl Identified for FactionDocument {
    open spec fn id_view(&self) -> Seq<char> {
        self.id@
    }

    fn id_text(&self) -> (r: &str) {
        self.id.as_str()
    }
}

impl Identified for MobKindDocument {
    open spec fn id_view(&self) -> Seq<char> {
        self.id@
    }

    fn id_text(&self) -> (r: &str) {
        self.id.as_str()
    }
}

impl Identified for AbilityDocument {
    open spec fn id_view(&self) -> Seq<char> {
        self.id@
    }

    fn id_text(&self) -> (r: &str) {
        self.id.as_str()
    }
}

impl Identified for ItemDocument {
    open spec fn id_view(&self) -> Seq<char> {
        self.id@
    }

    fn id_text(&self) -> (r: &str) {
        self.id.as_str()
    }
}

impl Identified for LootTableDocument {
    open spec fn id_view(&self) -> Seq<char> {
        self.id@
    }

    fn id_text(&self) -> (r: &str) {
        self.id.as_str()
    }
}

pub open spec fn ids_view<T: Identified>(docs: Seq<T>) -> Seq<Seq<char>>
    decreases docs.len(),
{
    if docs.len() == 0 {
        Seq::<Seq<char>>::empty()
    } else {
        ids_view(docs.drop_last()).push(docs.last().id_view())
    }
}

/// The ids of `docs`, in order.
pub fn ids<T: Identified>(docs: &Vec<T>) -> (out: Vec<String>)
    ensures
        text_views(out@) == ids_view(docs@),
{
    let mut out: Vec<String> = Vec::new();
    let mut i: usize = 0;
    assert(text_views(out@) =~= ids_view(docs@.take(0)));
    while i < docs.len()
        invariant
            i <= docs@.len(),
            text_views(out@) == ids_view(docs@.take(i as int)),
        decreases docs@.len() - i,
    {
        assert(docs@.take(i + 1).drop_last() =~= docs@.take(i as int));
        assert(docs@.take(i + 1).last() == docs@[i as int]);
        let ghost before = text_views(out@);
        let id = own(docs[i].id_text());
        out.push(id);
        assert(text_views(out@) =~= before.push(id@));
        i = i + 1;
    }
    assert(docs@.take(docs@.len() as int) =~= docs@);
    out
}

impl Universe {
    /// The ids a tree carries; the zones also hold `zone.<zone_slug>`.
    pub fn of(tree: &SourceTree, zone_slug: &str) -> (u: Self)
        ensures
            u.zone_slug@ == zone_slug@,
            namespace_ids(u, Namespace::Zones) == ids_view(tree.zones@).push("zone."@ + zone_slug@),
            namespace_ids(u, Namespace::Mobs) == ids_view(tree.mobs@),
            namespace_ids(u, Namespace::SpawnTables) == ids_view(tree.tables@),
            namespace_ids(u, Namespace::Routes) == ids_view(tree.routes@),
            namespace_ids(u, Namespace::Quests) == ids_view(tree.quests@),
            namespace_ids(u, Namespace::Factions) == ids_view(tree.factions@),
            namespace_ids(u, Namespace::MobKinds) == ids_view(tree.mob_kinds@),
            namespace_ids(u, Namespace::Abilities) == ids_view(tree.abilities@),
            namespace_ids(u, Namespace::Items) == ids_view(tree.items@),
            namespace_ids(u, Namespace::LootTables) == ids_view(tree.loot_tables@),
            namespace_ids(u, Namespace::LevelCurves) == text_views(tree.level_curves@),
    {
        let mut zones = ids(&tree.zones);
        let mut own_zone: Vec<char> = Vec::new();
        push_str(&mut own_zone, "zone.");
        push_str(&mut own_zone, zone_slug);
        let ghost before = text_views(zones@);
        let z = string_of(own_zone.as_slice());
        zones.push(z);
        assert(text_views(zones@) =~= before.push(z@));
        let mut curves: Vec<String> = Vec::new();
        let mut i: usize = 0;
        while i < tree.level_curves.len()
            invariant
                i <= tree.level_curves@.len(),
                text_views(curves@) == text_views(tree.level_curves@).take(i as int),
            decreases tree.level_curves@.len() - i,
        {
            let ghost prior = text_views(curves@);
            let c = tree.level_curves[i].clone();
            curves.push(c);
            assert(text_views(curves@) =~= prior.push(c@));
            assert(text_views(curves@) =~= text_views(tree.level_curves@).take(i + 1));
            i = i + 1;
        }
        assert(text_views(tree.level_curves@).take(tree.level_curves@.len() as int) =~= text_views(tree.level_curves@));
        Universe {
            zone_slug: own(zone_slug),
            zones,
            mobs: ids(&tree.mobs),
            spawn_tables: ids(&tree.tables),
            routes: ids(&tree.routes),
            quests: ids(&tree.quests),
            factions: ids(&tree.factions),
            mob_kinds: ids(&tree.mob_kinds),
            abilities: ids(&tree.abilities),
            items: ids(&tree.items),
            loot_tables: ids(&tree.loot_tables),
            level_curves: curves,
        }
    }
}

// ----- laws ------------------------------------------------------------------

/// How many outcomes a walk over `es` records: every localization key, and
/// every reference with a non-empty target.
pub open spec fn counted(es: Seq<EdgeView>) -> nat
    decreases es.len(),
{
    if es.len() == 0 {
        0
    } else {
        counted(es.drop_last()) + match es.last() {
            EdgeView::Reference { target, .. } => if target.len() == 0 { 0nat } else { 1nat },
            EdgeView::Locale { .. } => 1nat,
        }
    }
}

pub open spec fn outcomes(r: ReportView) -> nat {
    r.resolved + r.dangling.len() + r.external.len() + r.unmodelled.len() + r.gaps.len()
}

/// Every edge lands in exactly one outcome: the report's resolved count plus
/// the lengths of its four lists equals the number of localization keys and
/// non-empty references walked.
pub proof fn lemma_every_edge_has_one_outcome(es: Seq<EdgeView>, u: Universe, keys: Set<Seq<char>>)
    ensures
        outcomes(run_edges(empty_report(), es, u, keys)) == counted(es),
    decreases es.len(),
{
    if es.len() > 0 {
        lemma_every_edge_has_one_outcome(es.drop_last(), u, keys);
    }
}

/// Whether reference edge `e` names exactly `d` and resolves against none of
/// its namespaces.
pub open spec fn made_by(e: EdgeView, d: (Seq<char>, Seq<char>, Seq<char>), u: Universe) -> bool {
    match e {
        EdgeView::Reference { class, referencer, target, first, second } =>
            class == d.0 && referencer == d.1 && target == d.2 && !carried(u, first, second, target),
        EdgeView::Locale { .. } => false,
    }
}

/// A dangling reference is never empty, never an interactive object, never
/// an id of another zone, and never an id the pack carries under any
/// namespace the edge may resolve against.
pub proof fn lemma_dangling_is_unresolvable(es: Seq<EdgeView>, u: Universe, keys: Set<Seq<char>>, k: int)
    requires
        0 <= k < run_edges(empty_report(), es, u, keys).dangling.len(),
    ensures
        ({
            let d = run_edges(empty_report(), es, u, keys).dangling[k];
            &&& d.2.len() > 0
            &&& !has_prefix(d.2, interactive_prefix())
            &&& foreign_zone_of(d.2, u.zone_slug@) is None
            &&& exists|i: int| 0 <= i < es.len() && made_by(#[trigger] es[i], d, u)
        }),
    decreases es.len(),
{
    let prev = run_edges(empty_report(), es.drop_last(), u, keys);
    if k < prev.dangling.len() {
        lemma_dangling_is_unresolvable(es.drop_last(), u, keys, k);
        let d = prev.dangling[k];
        let i = choose|i: int| 0 <= i < es.drop_last().len() && made_by(#[trigger] es.drop_last()[i], d, u);
        assert(es[i] == es.drop_last()[i]);
    } else {
        assert(es[es.len() - 1] == es.last());
    }
}

} // verus!
