//! How a script source href becomes the id and row type a script row
//! carries, with the bookkeeping a conversion keeps as it goes: the triggers
//! still to read, the references minted outside every modelled namespace,
//! and the tally of node tiers.

use vstd::prelude::*;
use crate::reach::{ascending, id_set, insert_id};
use crate::reference::{slug_of, slug_vec, slug_path_of, slug_path, canonical_id_of, canonical_id_from_source_path, opt_text};
use crate::report::{tally_views, tally_wf, count_in, tally_add};
use crate::scan::text_views;
use crate::script::{
    normalize_of, normalize, marker_of_spec, marker_of, row_type_slug_of, row_type_slug, trigger_id_of, trigger_id,
    questcount_id_of, questcount_id,
};
use crate::source::opt_view;
use crate::text::{
    chars_of, string_of, seq_eq, eq_str, starts_with_str, has_prefix, slice_range, copy_chars, concat, concat_str,
    split, split_vec, views_of, keep_nonempty, keep_nonempty_vec, lower, lower_vec, contains, find, occurs_at,
    is_first_occurrence, lemma_split_nonempty, push_str,
};

verus! {

/// Why a script href could not be given an id.
#[derive(Debug, Clone, PartialEq, Eq)]
pub enum ConvertError {
    NoQuestCountRule { absolute: String },
    NotMapResource { absolute: String },
    NoMapId { absolute: String },
}

pub open spec fn convert_error_text(e: ConvertError) -> Seq<char> {
    match e {
        ConvertError::NoQuestCountRule { absolute } => "no QuestCountId id rule covers "@ + absolute@,
        ConvertError::NotMapResource { absolute } => "map resource reference \""@ + absolute@
            + "\" is not Maps/<map>/MapResource.xdb"@,
        ConvertError::NoMapId { absolute } => "map resource reference \""@ + absolute@
            + "\" has no canonical product map id"@,
    }
}

impl ConvertError {
    pub fn message(&self) -> (r: String)
        ensures
            r@ == convert_error_text(*self),
    {
        let mut out: Vec<char> = Vec::new();
        match self {
            ConvertError::NoQuestCountRule { absolute } => {
                push_str(&mut out, "no QuestCountId id rule covers ");
                push_str(&mut out, absolute.as_str());
            },
            ConvertError::NotMapResource { absolute } => {
                push_str(&mut out, "map resource reference \"");
                push_str(&mut out, absolute.as_str());
                push_str(&mut out, "\" is not Maps/<map>/MapResource.xdb");
            },
            ConvertError::NoMapId { absolute } => {
                push_str(&mut out, "map resource reference \"");
                push_str(&mut out, absolute.as_str());
                push_str(&mut out, "\" has no canonical product map id");
            },
        }
        assert(out@ =~= convert_error_text(*self));
        string_of(out.as_slice())
    }
}

fn own(s: &[char]) -> (out: String)
    ensures
        out@ == s@,
{
    string_of(s)
}

// ----- map resources -----------------------------------------------------------------

/// The one classic map-resource shape, `Maps/<map>/MapResource.xdb`, its
/// fixed segments compared ignoring ASCII case.
pub open spec fn is_map_resource_path(absolute: Seq<char>) -> bool {
    let parts = keep_nonempty(split(absolute, '/'));
    parts.len() == 3 && lower(parts[0]) == lower("Maps"@) && lower(parts[2]) == lower("MapResource.xdb"@)
}

/// The map directory's name in a map-resource path.
pub open spec fn map_name(absolute: Seq<char>) -> Seq<char> {
    keep_nonempty(split(absolute, '/'))[1]
}

/// The source-free product id of a classic map resource. An unfamiliar path
/// fails closed rather than leaking a source identity into a script row.
pub fn map_resource_id(absolute: &str) -> (r: Result<String, ConvertError>)
    ensures
        if !is_map_resource_path(absolute@) {
            r matches Err(ConvertError::NotMapResource { absolute: a }) && a@ == absolute@
        } else if slug_of(map_name(absolute@)).len() == 0 {
            r matches Err(ConvertError::NoMapId { absolute: a }) && a@ == absolute@
        } else {
            r matches Ok(id) && id@ == slug_of(map_name(absolute@))
        },
{
    let chars = chars_of(absolute);
    let pieces = split_vec(chars.as_slice(), '/');
    assert(views_of(pieces@) =~= split(chars@, '/'));
    let parts = keep_nonempty_vec(&pieces);
    if parts.len() != 3 {
        return Err(ConvertError::NotMapResource { absolute: own(chars.as_slice()) });
    }
    assert(parts@[0]@ == keep_nonempty(split(absolute@, '/'))[0]);
    assert(parts@[1]@ == keep_nonempty(split(absolute@, '/'))[1]);
    assert(parts@[2]@ == keep_nonempty(split(absolute@, '/'))[2]);
    let first = lower_vec(parts[0].as_slice());
    let maps = lower_vec(chars_of("Maps").as_slice());
    let last = lower_vec(parts[2].as_slice());
    let resource = lower_vec(chars_of("MapResource.xdb").as_slice());
    if !seq_eq(first.as_slice(), maps.as_slice()) || !seq_eq(last.as_slice(), resource.as_slice()) {
        return Err(ConvertError::NotMapResource { absolute: own(chars.as_slice()) });
    }
    let id = slug_vec(parts[1].as_slice());
    if id.len() == 0 {
        return Err(ConvertError::NoMapId { absolute: own(chars.as_slice()) });
    }
    Ok(string_of(id.as_slice()))
}

// ----- hrefs ---------------------------------------------------------------------------

/// An href split at its first `#`: the path, and the pointer after it.
pub open spec fn href_split(value: Seq<char>) -> (Seq<char>, Option<Seq<char>>) {
    if contains(value, "#"@) {
        let i = choose|i: int| is_first_occurrence(value, "#"@, i);
        (value.take(i), Some(value.skip(i + 1)))
    } else {
        (value, None)
    }
}

/// The path an href names, from the source root: a rooted path loses its
/// slash; a relative one is resolved against the referring document's
/// directory.
pub open spec fn absolute_of(dir: Seq<char>, value: Seq<char>) -> Seq<char> {
    let p = href_split(value).0;
    if has_prefix(p, "/"@) {
        p.skip(1)
    } else if dir.len() == 0 {
        p
    } else {
        normalize_of(dir + "/"@ + p)
    }
}

/// `s` without its trailing `c`s.
pub open spec fn trim_end_char(s: Seq<char>, c: char) -> Seq<char>
    decreases s.len(),
{
    if s.len() > 0 && s.last() == c {
        trim_end_char(s.drop_last(), c)
    } else {
        s
    }
}

/// The root element an href points at: the last dotted segment of an
/// `xpointer(/...)`, or else the `.(Kind)` marker of its file name.
pub open spec fn root_element_of(dir: Seq<char>, value: Seq<char>) -> Option<Seq<char>> {
    let pointer = href_split(value).1;
    if pointer is Some && has_prefix(pointer->0, "xpointer(/"@) {
        Some(split(trim_end_char(pointer->0.skip(10), ')'), '.').last())
    } else {
        marker_of_spec(absolute_of(dir, value))
    }
}

/// The row type an href's root element maps to.
pub open spec fn row_type_of(dir: Seq<char>, value: Seq<char>) -> Option<Seq<char>> {
    match root_element_of(dir, value) {
        Some(e) => Some(row_type_slug_of(e)),
        None => None,
    }
}

/// The id minted for a reference no canonical namespace models.
pub open spec fn external_id_of(absolute: Seq<char>) -> Seq<char> {
    "ext."@ + slug_path_of(split(absolute, '/'))
}

fn is_row_type(t: &Option<String>, k: &str) -> (b: bool)
    ensures
        b == (opt_view(*t) == Some(k@)),
{
    match t {
        Some(t) => eq_str(chars_of(t.as_str()).as_slice(), k),
        None => false,
    }
}

fn trim_end_vec(s: &[char], c: char) -> (out: Vec<char>)
    ensures
        out@ == trim_end_char(s@, c),
{
    let mut n: usize = s.len();
    assert(s@.subrange(0, n as int) =~= s@);
    while n > 0 && s[n - 1] == c
        invariant
            n <= s@.len(),
            trim_end_char(s@.subrange(0, n as int), c) == trim_end_char(s@, c),
        decreases n,
    {
        assert(s@.subrange(0, n as int).drop_last() =~= s@.subrange(0, n - 1));
        n = n - 1;
    }
    slice_range(s, 0, n)
}

// ----- the converter ------------------------------------------------------------------

/// The state one zone's script conversion carries.
#[derive(Debug)]
pub struct Converter {
    pub zone_slug: String,
    /// The directory of the document being converted, for relative hrefs.
    pub document_dir: String,
    /// Each trigger id asked for, and the source path it is read from.
    pub wanted_triggers: Vec<(String, String)>,
    /// Trigger ids still to read, each queued once.
    pub queue: Vec<String>,
    /// References no canonical namespace models, minted under `ext.`.
    pub external_resources: Vec<String>,
    pub nodes: usize,
    pub implemented: usize,
    pub inert: usize,
    pub refused: usize,
    /// Refused-tier opcodes and how often each appears.
    pub refused_opcodes: Vec<(String, usize)>,
}

pub open spec fn pair_views(v: Seq<(String, String)>) -> Seq<(Seq<char>, Seq<char>)> {
    v.map_values(|p: (String, String)| (p.0@, p.1@))
}

/// The trigger ids asked for, in the order they were first asked for.
pub open spec fn trigger_ids(v: Seq<(String, String)>) -> Seq<Seq<char>> {
    v.map_values(|p: (String, String)| p.0@)
}

/// The trigger ids already asked for.
pub open spec fn trigger_keys(v: Seq<(String, String)>) -> Set<Seq<char>> {
    Set::new(|k: Seq<char>| exists|i: int| 0 <= i < v.len() && (#[trigger] v[i]).0@ == k)
}

pub open spec fn opt_chars_view(o: Option<Vec<char>>) -> Option<Seq<char>> {
    match o {
        Some(v) => Some(v@),
        None => None,
    }
}

/// Only the trigger bookkeeping moved.
pub open spec fn same_tally(a: Converter, b: Converter) -> bool {
    &&& a.zone_slug == b.zone_slug
    &&& a.document_dir == b.document_dir
    &&& a.nodes == b.nodes
    &&& a.implemented == b.implemented
    &&& a.inert == b.inert
    &&& a.refused == b.refused
    &&& a.refused_opcodes == b.refused_opcodes
}

/// What resolving `value` gives and does to the converter: a trigger is
/// queued the first time it is asked for; a QuestCountId and a map resource
/// take their own id rules, failing closed; anything else takes its
/// canonical id, or is minted under `ext.` and recorded.
pub open spec fn resolved(before: Converter, after: Converter, value: Seq<char>, r: Result<(String, Option<String>), ConvertError>) -> bool {
    let dir = before.document_dir@;
    let a = absolute_of(dir, value);
    let rt = row_type_of(dir, value);
    &&& same_tally(before, after)
    &&& if rt == Some("trigger"@) {
        let id = trigger_id_of(before.zone_slug@, a);
        &&& r matches Ok((i, t)) && i@ == id && opt_view(t) == rt
        &&& after.external_resources == before.external_resources
        &&& if trigger_keys(before.wanted_triggers@).contains(id) {
            after.wanted_triggers == before.wanted_triggers && after.queue == before.queue
        } else {
            &&& pair_views(after.wanted_triggers@) == pair_views(before.wanted_triggers@).push((id, a))
            &&& text_views(after.queue@) == text_views(before.queue@).push(id)
        }
    } else {
        &&& after.wanted_triggers == before.wanted_triggers
        &&& after.queue == before.queue
        &&& if rt == Some("quest-count-id"@) {
            &&& after.external_resources == before.external_resources
            &&& match questcount_id_of(a) {
                Some(id) => r matches Ok((i, t)) && i@ == id && opt_view(t) == rt,
                None => r matches Err(ConvertError::NoQuestCountRule { absolute: x }) && x@ == a,
            }
        } else if rt == Some("map-resource"@) {
            &&& after.external_resources == before.external_resources
            &&& if !is_map_resource_path(a) {
                r matches Err(ConvertError::NotMapResource { absolute: x }) && x@ == a
            } else if slug_of(map_name(a)).len() == 0 {
                r matches Err(ConvertError::NoMapId { absolute: x }) && x@ == a
            } else {
                r matches Ok((i, t)) && i@ == slug_of(map_name(a)) && opt_view(t) == Some("map"@)
            }
        } else {
            match canonical_id_of(a) {
                Some(id) => r matches Ok((i, t)) && i@ == id && opt_view(t) == rt
                    && after.external_resources == before.external_resources,
                None => r matches Ok((i, t)) && i@ == external_id_of(a) && opt_view(t) == rt
                    && ascending(after.external_resources@)
                    && id_set(after.external_resources@) == id_set(before.external_resources@).insert(external_id_of(a)),
            }
        }
    }
}

impl Converter {
    /// The state's own invariants: the minted ids ascend, and the refused
    /// tally is one entry per opcode.
    pub open spec fn wf(&self) -> bool {
        &&& ascending(self.external_resources@)
        &&& tally_wf(tally_views(self.refused_opcodes@))
        &&& text_views(self.queue@) == trigger_ids(self.wanted_triggers@)
        &&& text_views(self.queue@).no_duplicates()
    }

    pub fn new(zone_slug: &str, document_dir: &str) -> (c: Self)
        ensures
            c.wf(),
            c.zone_slug@ == zone_slug@,
            c.document_dir@ == document_dir@,
            c.wanted_triggers@.len() == 0,
            c.queue@.len() == 0,
            c.external_resources@.len() == 0,
            c.nodes == 0 && c.implemented == 0 && c.inert == 0 && c.refused == 0,
            c.refused_opcodes@.len() == 0,
    {
        let c = Converter {
            zone_slug: own(chars_of(zone_slug).as_slice()),
            document_dir: own(chars_of(document_dir).as_slice()),
            wanted_triggers: Vec::new(),
            queue: Vec::new(),
            external_resources: Vec::new(),
            nodes: 0,
            implemented: 0,
            inert: 0,
            refused: 0,
            refused_opcodes: Vec::new(),
        };
        assert(tally_views(c.refused_opcodes@) =~= Seq::<(Seq<char>, nat)>::empty());
        assert(text_views(c.queue@) =~= trigger_ids(c.wanted_triggers@));
        c
    }

    /// Whether `id` was already asked for.
    fn wants_trigger(&self, id: &[char]) -> (r: bool)
        ensures
            r == trigger_keys(self.wanted_triggers@).contains(id@),
    {
        let mut i: usize = 0;
        while i < self.wanted_triggers.len()
            invariant
                i <= self.wanted_triggers@.len(),
                forall|k: int| 0 <= k < i ==> (#[trigger] self.wanted_triggers@[k]).0@ != id@,
            decreases self.wanted_triggers@.len() - i,
        {
            if eq_str(id, self.wanted_triggers[i].0.as_str()) {
                return true;
            }
            i = i + 1;
        }
        false
    }

    /// Resolves a source href to the id and row type a script row carries.
    #[verifier::spinoff_prover]
    pub fn resolve(&mut self, value: &str) -> (r: Result<(String, Option<String>), ConvertError>)
        requires
            old(self).wf(),
        ensures
            final(self).wf(),
            resolved(*old(self), *final(self), value@, r),
    {
        let ghost dir = self.document_dir@;
        let v = chars_of(value);
        let hash = chars_of("#");
        proof {
            reveal_strlit("#");
            assert(hash@.len() == 1);
        }
        let (path_part, pointer): (Vec<char>, Option<Vec<char>>) = match find(v.as_slice(), hash.as_slice()) {
            Some(i) => {
                proof {
                    assert(occurs_at(v@, hash@, i as int));
                    assert(i + 1 <= v@.len());
                    assert(occurs_at(v@, "#"@, i as int));
                    assert(contains(v@, "#"@));
                    let j = choose|j: int| is_first_occurrence(value@, "#"@, j);
                    if j < i {
                        assert(!occurs_at(v@, "#"@, j));
                    }
                    if i < j {
                        assert(!occurs_at(v@, "#"@, i as int));
                    }
                    assert(i == j);
                    assert("#"@.len() == 1);
                    assert(i < v@.len());
                }
                let n = v.len();
                assert(i < n);
                let after = i + 1;
                (slice_range(v.as_slice(), 0, i), Some(slice_range(v.as_slice(), after, v.len())))
            },
            None => (copy_chars(v.as_slice()), None),
        };
        assert(path_part@ == href_split(value@).0);
        assert(opt_chars_view(pointer) == href_split(value@).1);
        let absolute: Vec<char> = if starts_with_str(path_part.as_slice(), "/") {
            proof { reveal_strlit("/"); }
            slice_range(path_part.as_slice(), 1, path_part.len())
        } else if self.document_dir.as_str().unicode_len() == 0 {
            path_part
        } else {
            let d = chars_of(self.document_dir.as_str());
            let joined = concat(concat_str(d.as_slice(), "/").as_slice(), path_part.as_slice());
            assert(joined@ =~= dir + "/"@ + href_split(value@).0);
            let normal = normalize(string_of(joined.as_slice()).as_str());
            chars_of(normal.as_str())
        };
        assert(absolute@ =~= absolute_of(dir, value@));
        let abs_text = string_of(absolute.as_slice());
        let root: Option<Vec<char>> = match &pointer {
            Some(ptr) => {
                if starts_with_str(ptr.as_slice(), "xpointer(/") {
                    proof { reveal_strlit("xpointer(/"); }
                    let rest = slice_range(ptr.as_slice(), 10, ptr.len());
                    assert(rest@ =~= ptr@.skip(10));
                    let trimmed = trim_end_vec(rest.as_slice(), ')');
                    let pieces = split_vec(trimmed.as_slice(), '.');
                    proof { lemma_split_nonempty(trimmed@, '.'); }
                    let last = copy_chars(pieces[pieces.len() - 1].as_slice());
                    Some(last)
                } else {
                    match marker_of(abs_text.as_str()) {
                        Some(m) => Some(chars_of(m.as_str())),
                        None => None,
                    }
                }
            },
            None => match marker_of(abs_text.as_str()) {
                Some(m) => Some(chars_of(m.as_str())),
                None => None,
            },
        };
        assert(opt_chars_view(root) == root_element_of(dir, value@));
        let row_type: Option<String> = match &root {
            Some(e) => Some(row_type_slug(string_of(e.as_slice()).as_str())),
            None => None,
        };
        assert(opt_view(row_type) == row_type_of(dir, value@));
        if is_row_type(&row_type, "trigger") {
            let id = trigger_id(self.zone_slug.as_str(), abs_text.as_str());
            let idc = chars_of(id.as_str());
            if !self.wants_trigger(idc.as_slice()) {
                let ghost pv = pair_views(self.wanted_triggers@);
                let ghost qv = text_views(self.queue@);
                self.wanted_triggers.push((own(idc.as_slice()), own(absolute.as_slice())));
                self.queue.push(own(idc.as_slice()));
                assert(pair_views(self.wanted_triggers@) =~= pv.push((id@, absolute@)));
                assert(text_views(self.queue@) =~= qv.push(id@));
                proof {
                    assert(trigger_ids(self.wanted_triggers@) =~= qv.push(id@));
                    assert(!qv.contains(id@)) by {
                        if qv.contains(id@) {
                            let k = choose|k: int| 0 <= k < qv.len() && qv[k] == id@;
                            assert(trigger_ids(old(self).wanted_triggers@)[k] == id@);
                            assert(old(self).wanted_triggers@[k].0@ == id@);
                        }
                    }
                    let q = qv.push(id@);
                    assert forall|a: int, b: int| 0 <= a < q.len() && 0 <= b < q.len() && a != b implies q[a] != q[b] by {
                        if a == qv.len() {
                            assert(qv.contains(q[b]));
                        } else if b == qv.len() {
                            assert(qv.contains(q[a]));
                        }
                    }
                }
            }
            return Ok((id, row_type));
        }
        if is_row_type(&row_type, "quest-count-id") {
            return match questcount_id(abs_text.as_str()) {
                Some(id) => Ok((id, row_type)),
                None => Err(ConvertError::NoQuestCountRule { absolute: abs_text }),
            };
        }
        if is_row_type(&row_type, "map-resource") {
            return match map_resource_id(abs_text.as_str()) {
                Ok(id) => Ok((id, Some(own(chars_of("map").as_slice())))),
                Err(e) => Err(e),
            };
        }
        match canonical_id_from_source_path(abs_text.as_str()) {
            Some(id) => Ok((id, row_type)),
            None => {
                let pieces = split_vec(absolute.as_slice(), '/');
                assert(views_of(pieces@).skip(0) =~= split(absolute@, '/'));
                let tail = slug_path(&pieces, 0);
                let mut minted = chars_of("ext.");
                let mut k: usize = 0;
                let ghost head = minted@;
                while k < tail.len()
                    invariant
                        k <= tail@.len(),
                        minted@ == head + tail@.take(k as int),
                    decreases tail@.len() - k,
                {
                    minted.push(tail[k]);
                    assert(minted@ =~= head + tail@.take(k + 1));
                    k = k + 1;
                }
                assert(tail@.take(tail@.len() as int) =~= tail@);
                assert(minted@ == external_id_of(absolute@));
                insert_id(&mut self.external_resources, string_of(minted.as_slice()).as_str());
                Ok((own(minted.as_slice()), row_type))
            },
        }
    }

    /// Counts one node by its tier; a refused node's opcode is tallied too.
    pub fn count_tier(&mut self, tier: &str, opcode: &str)
        requires
            old(self).wf(),
            old(self).nodes < usize::MAX,
            old(self).implemented < usize::MAX,
            old(self).inert < usize::MAX,
            old(self).refused < usize::MAX,
            count_in(tally_views(old(self).refused_opcodes@), opcode@) < usize::MAX,
        ensures
            final(self).wf(),
            final(self).nodes == old(self).nodes + 1,
            final(self).implemented == old(self).implemented + if tier@ == "implemented"@ { 1int } else { 0int },
            final(self).inert == old(self).inert + if tier@ == "inert-and-counted"@ { 1int } else { 0int },
            final(self).refused == old(self).refused
                + if tier@ != "implemented"@ && tier@ != "inert-and-counted"@ { 1int } else { 0int },
            forall|k: Seq<char>| #[trigger] count_in(tally_views(final(self).refused_opcodes@), k)
                == count_in(tally_views(old(self).refused_opcodes@), k)
                + if k == opcode@ && tier@ != "implemented"@ && tier@ != "inert-and-counted"@ { 1nat } else { 0nat },
            final(self).zone_slug == old(self).zone_slug,
            final(self).document_dir == old(self).document_dir,
            final(self).wanted_triggers == old(self).wanted_triggers,
            final(self).queue == old(self).queue,
            final(self).external_resources == old(self).external_resources,
    {
        self.nodes = self.nodes + 1;
        let t = chars_of(tier);
        proof {
            reveal_strlit("implemented");
            reveal_strlit("inert-and-counted");
            assert("implemented"@.len() != "inert-and-counted"@.len());
        }
        if eq_str(t.as_slice(), "implemented") {
            self.implemented = self.implemented + 1;
        } else if eq_str(t.as_slice(), "inert-and-counted") {
            self.inert = self.inert + 1;
        } else {
            self.refused = self.refused + 1;
            let op = chars_of(opcode);
            tally_add(&mut self.refused_opcodes, op.as_slice(), usize::MAX);
        }
    }
}

} // verus!
