//! One quest resource as a zone extraction writes it: its identity and
//! texts, who starts and finishes it, what it requires, its objectives with
//! their stable ids, its rewards, its flags, and everything else it says
//! kept verbatim.

use vstd::prelude::*;
use crate::item::{opt_i64, opt_bool, opt_slug, flags_of, flag_views};
use crate::mobkind::{item_refs, href_ref, opt_ref_view, ref_views};
use crate::model::{LocRefs, Provenance, QuestPrerequisite, ResourceRef, RewardItem, resource_ref};
use crate::objective::{derive_objective_id, objective_id_of, opt_str};
use crate::overlay::{Doc, DocView, doc_view, entries_view, list_view};
use crate::reference::{href_id_of, slug, slug_of, opt_text};
use crate::scan::{loc_key, loc_key_of};
use crate::text::{chars_of, string_of, split, split_vec, lemma_split_nonempty, views_of};
use crate::xml::{
    XmlDoc, XmlElement, child_of, named_children, text_of, href_of, attr_of, opt_string, extra_fields_of,
    str_views, is_within, node_value_of, lemma_named_children_bound,
};

verus! {

#[derive(Debug)]
pub struct QuestObjective {
    pub objective_id: String,
    pub kind: String,
    pub loc_ref: Option<String>,
    pub limit: Option<i64>,
    pub internal: Option<bool>,
    pub show_count: Option<bool>,
    pub targets: Vec<ResourceRef>,
    pub extra: Vec<(String, Doc)>,
}

#[derive(Debug)]
pub struct QuestRewards {
    pub experience: Option<i64>,
    pub money: Option<i64>,
    pub honor: Option<i64>,
    pub mandatory_items: Vec<RewardItem>,
    pub alternative_items: Vec<RewardItem>,
    pub reputations: Vec<Doc>,
}

#[derive(Debug)]
pub struct QuestDocument {
    pub schema_version: u8,
    pub id: String,
    pub zone: String,
    pub source_type: String,
    pub resource_id: Option<u64>,
    pub internal_name: Option<String>,
    pub loc_ref: LocRefs,
    pub level: Option<i64>,
    pub required_level: Option<i64>,
    pub quest_type: Option<String>,
    pub plotline: Option<String>,
    pub starter: Option<ResourceRef>,
    pub finisher: Option<ResourceRef>,
    pub prerequisites: Vec<QuestPrerequisite>,
    pub objectives: Vec<QuestObjective>,
    pub rewards: QuestRewards,
    /// Boolean flags the source sets, by output name, ascending.
    pub flags: Vec<(String, bool)>,
    pub extra: Vec<(String, Doc)>,
    pub source: Provenance,
}

// ----- what the source says ----------------------------------------------------------

/// A localization key read from a child's `href`.
pub open spec fn localized(es: Seq<XmlElement>, n: int, name: Seq<char>, src: Seq<char>, referrer: Seq<char>) -> Option<Seq<char>> {
    match href_of(es, n, name) {
        Some(h) => loc_key_of(src, referrer, h),
        None => None,
    }
}

/// The references the `Item`s of child `coll` of `n` carry.
pub open spec fn refs_in(es: Seq<XmlElement>, n: int, coll: Seq<char>) -> Seq<(Option<Seq<char>>, Seq<char>)> {
    match child_of(es, n, coll) {
        Some(c) => item_refs(es, named_children(es, c, "Item"@, es.len() as int),
            named_children(es, c, "Item"@, es.len() as int).len() as int),
        None => Seq::empty(),
    }
}

/// An objective's targets: the items, then the objects, then the mobs.
pub open spec fn targets_of(es: Seq<XmlElement>, n: int) -> Seq<(Option<Seq<char>>, Seq<char>)> {
    refs_in(es, n, "items"@) + refs_in(es, n, "objects"@) + refs_in(es, n, "mobs"@)
}

/// An objective's kind: the slug of its type's last segment, else
/// `unknown`.
pub open spec fn kind_of(es: Seq<XmlElement>, n: int) -> Seq<char> {
    match attr_of(es[n].attributes@, "type"@) {
        Some(t) => slug_of(split(t, '.').last()),
        None => "unknown"@,
    }
}

pub open spec fn objective_mapped() -> Seq<Seq<char>> {
    seq!["customName"@, "limit"@, "isInternal"@, "showCounterValue"@, "items"@, "objects"@, "mobs"@]
}

pub open spec fn hrefs_of(rs: Seq<(Option<Seq<char>>, Seq<char>)>) -> Seq<Seq<char>> {
    rs.map_values(|r: (Option<Seq<char>>, Seq<char>)| r.1)
}

/// One objective read from counter entry `n` of quest `quest`. Its id is
/// derived from its counter's `id` href when it has one, else from its name
/// and targets, as script extraction derives it.
pub open spec fn objective_of(es: Seq<XmlElement>, n: int, quest: Seq<char>, src: Seq<char>, referrer: Seq<char>,
    o: QuestObjective) -> bool
{
    let targets = targets_of(es, n);
    &&& o.kind@ == kind_of(es, n)
    &&& o.objective_id@ == objective_id_of(quest, kind_of(es, n), href_of(es, n, "id"@), href_of(es, n, "customName"@),
        hrefs_of(targets))
    &&& opt_string(o.loc_ref) == localized(es, n, "customName"@, src, referrer)
    &&& o.limit == opt_i64(es, n, "limit"@)
    &&& o.internal == opt_bool(es, n, "isInternal"@)
    &&& o.show_count == opt_bool(es, n, "showCounterValue"@)
    &&& ref_views(o.targets@) == targets
    &&& entries_view(o.extra@) == extra_fields_of(es, n, objective_mapped())
}

/// A prerequisite as values: the quest referred to, and the status wanted.
pub open spec fn prereq_view(p: QuestPrerequisite) -> ((Option<Seq<char>>, Seq<char>), Option<Seq<char>>) {
    ((opt_text(p.quest.id), p.quest.href@), opt_string(p.status))
}

/// The prerequisites among the first `upto` elements: each element at or
/// inside `c` with a `quest` href, in document order.
pub open spec fn prereqs_of(es: Seq<XmlElement>, c: int, upto: int) -> Seq<((Option<Seq<char>>, Seq<char>), Option<Seq<char>>)>
    decreases upto,
{
    if upto <= 0 {
        Seq::empty()
    } else {
        let rest = prereqs_of(es, c, upto - 1);
        let i = upto - 1;
        match href_of(es, i, "quest"@) {
            Some(h) => if is_within(es, c, i) { rest.push(((href_id_of(h), h), text_of(es, i, "status"@))) } else { rest },
            None => rest,
        }
    }
}

pub open spec fn reward_view(r: RewardItem) -> ((Option<Seq<char>>, Seq<char>), i64, Option<bool>) {
    ((opt_text(r.item.id), r.item.href@), r.count, r.hidden)
}

/// The reward items among the first `upto` of `entries`: those with an
/// `item` href, their count defaulting to one.
pub open spec fn rewards_in(es: Seq<XmlElement>, entries: Seq<int>, upto: int) -> Seq<((Option<Seq<char>>, Seq<char>), i64, Option<bool>)>
    decreases upto,
{
    if upto <= 0 {
        Seq::empty()
    } else {
        let rest = rewards_in(es, entries, upto - 1);
        let e = entries[upto - 1];
        match href_of(es, e, "item"@) {
            Some(h) => rest.push(((href_id_of(h), h), match opt_i64(es, e, "number"@) { Some(k) => k, None => 1 },
                opt_bool(es, e, "hidden"@))),
            None => rest,
        }
    }
}

pub open spec fn reward_items_of(es: Seq<XmlElement>, r: int, coll: Seq<char>) -> Seq<((Option<Seq<char>>, Seq<char>), i64, Option<bool>)> {
    match child_of(es, r, coll) {
        Some(c) => rewards_in(es, named_children(es, c, "Item"@, es.len() as int),
            named_children(es, c, "Item"@, es.len() as int).len() as int),
        None => Seq::empty(),
    }
}

pub open spec fn reputations_of(es: Seq<XmlElement>, r: int) -> Seq<DocView> {
    match child_of(es, r, "reputations"@) {
        Some(c) => named_children(es, c, "Item"@, es.len() as int).map_values(|k: int| node_value_of(es, k)),
        None => Seq::empty(),
    }
}

/// The rewards a quest's `reward` element gives; none without one.
pub open spec fn rewards_of(es: Seq<XmlElement>, w: QuestRewards) -> bool {
    match child_of(es, 0, "reward"@) {
        Some(r) => {
            &&& w.experience == opt_i64(es, r, "experience"@)
            &&& w.money == opt_i64(es, r, "money"@)
            &&& w.honor == opt_i64(es, r, "honor"@)
            &&& w.mandatory_items@.map_values(|x: RewardItem| reward_view(x)) == reward_items_of(es, r, "mandatoryItems"@)
            &&& w.alternative_items@.map_values(|x: RewardItem| reward_view(x)) == reward_items_of(es, r, "alternativeItems"@)
            &&& list_view(w.reputations@) == reputations_of(es, r)
        },
        None => {
            &&& w.experience is None && w.money is None && w.honor is None
            &&& w.mandatory_items@.len() == 0 && w.alternative_items@.len() == 0 && w.reputations@.len() == 0
        },
    }
}

/// The boolean flags, as (source field, output name), by output name.
pub open spec fn quest_flags() -> Seq<(Seq<char>, Seq<char>)> {
    seq![
        ("autoSetGoalLocation"@, "auto_set_goal_location"@), ("autoSetReturnLocation"@, "auto_set_return_location"@),
        ("canCancel"@, "can_cancel"@), ("pvp"@, "pvp"@), ("secretSequence"@, "secret_sequence"@),
        ("tutorial"@, "tutorial"@)
    ]
}

pub open spec fn quest_mapped() -> Seq<Seq<char>> {
    seq![
        "Header"@, "internalName"@, "name"@, "goal"@, "startText"@, "checkText"@, "finishText"@, "level"@,
        "requiredLevel"@, "type"@, "plotline"@, "finisher"@, "startConditions"@, "counters"@, "reward"@,
        "canCancel"@, "pvp"@, "secretSequence"@, "tutorial"@, "autoSetGoalLocation"@, "autoSetReturnLocation"@
    ]
}

/// The counter entries of a quest.
pub open spec fn counter_entries(es: Seq<XmlElement>) -> Seq<int> {
    match child_of(es, 0, "counters"@) {
        Some(c) => named_children(es, c, "Item"@, es.len() as int),
        None => Seq::empty(),
    }
}

/// What a quest document holds, read from its source.
pub open spec fn quest_fields(d: QuestDocument, es: Seq<XmlElement>, id: Seq<char>, zone: Seq<char>,
    starter: Option<(Option<Seq<char>>, Seq<char>)>, src: Seq<char>, referrer: Seq<char>) -> bool
{
    let counters = counter_entries(es);
    &&& d.schema_version == 1
    &&& d.id@ == id
    &&& d.zone@ == "zone."@ + zone
    &&& d.source_type@ == es[0].name@
    &&& d.resource_id == match child_of(es, 0, "Header"@) {
        Some(h) => match text_of(es, h, "resourceId"@) { Some(t) => crate::script::parse_u64_of(t), None => None },
        None => None,
    }
    &&& opt_string(d.internal_name) == text_of(es, 0, "internalName"@)
    &&& opt_string(d.loc_ref.name) == localized(es, 0, "name"@, src, referrer)
    &&& opt_string(d.loc_ref.goal) == localized(es, 0, "goal"@, src, referrer)
    &&& opt_string(d.loc_ref.start) == localized(es, 0, "startText"@, src, referrer)
    &&& opt_string(d.loc_ref.check) == localized(es, 0, "checkText"@, src, referrer)
    &&& opt_string(d.loc_ref.finish) == localized(es, 0, "finishText"@, src, referrer)
    &&& d.loc_ref.description is None && d.loc_ref.bind_description is None && d.loc_ref.title is None
    &&& d.level == opt_i64(es, 0, "level"@)
    &&& d.required_level == opt_i64(es, 0, "requiredLevel"@)
    &&& opt_string(d.quest_type) == opt_slug(text_of(es, 0, "type"@))
    &&& opt_string(d.plotline) == text_of(es, 0, "plotline"@)
    &&& opt_ref_view(d.starter) == starter
    &&& opt_ref_view(d.finisher) == match child_of(es, 0, "finisher"@) {
        Some(f) => href_ref(href_of(es, f, "mobWorld"@)),
        None => None,
    }
    &&& d.prerequisites@.map_values(|p: QuestPrerequisite| prereq_view(p)) == match child_of(es, 0, "startConditions"@) {
        Some(c) => prereqs_of(es, c, es.len() as int),
        None => Seq::empty(),
    }
    &&& d.objectives@.len() == counters.len()
    &&& forall|k: int| 0 <= k < counters.len() ==> objective_of(es, counters[k], id, src, referrer, #[trigger] d.objectives@[k])
    &&& rewards_of(es, d.rewards)
    &&& flag_views(d.flags@) == flags_of(es, 0, quest_flags())
    &&& entries_view(d.extra@) == extra_fields_of(es, 0, quest_mapped())
}

// ----- reading it -----------------------------------------------------------------------

fn own(s: &str) -> (out: String)
    ensures
        out@ == s@,
{
    string_of(chars_of(s).as_slice())
}

fn slug_opt(t: Option<String>) -> (r: Option<String>)
    ensures
        opt_string(r) == opt_slug(opt_string(t)),
{
    match t {
        Some(v) => Some(slug(v.as_str())),
        None => None,
    }
}

pub(crate) fn ref_opt(h: Option<String>) -> (r: Option<ResourceRef>)
    ensures
        opt_ref_view(r) == href_ref(opt_string(h)),
{
    match h {
        Some(v) => Some(resource_ref(v.as_str())),
        None => None,
    }
}

pub(crate) fn localized_exec(doc: &XmlDoc, n: usize, name: &str, src: &str, referrer: &str) -> (r: Option<String>)
    ensures
        opt_string(r) == localized(doc@, n as int, name@, src@, referrer@),
{
    match doc.href(n, name) {
        Some(h) => loc_key(src, referrer, h.as_str()),
        None => None,
    }
}

pub(crate) fn refs_in_exec(doc: &XmlDoc, n: usize, coll: &str) -> (out: Vec<ResourceRef>)
    ensures
        ref_views(out@) == refs_in(doc@, n as int, coll@),
{
    let mut out: Vec<ResourceRef> = Vec::new();
    assert(ref_views(out@) =~= Seq::<(Option<Seq<char>>, Seq<char>)>::empty());
    let c = match doc.child(n, coll) {
        Some(c) => c,
        None => return out,
    };
    let items = doc.children(c, "Item");
    let ghost iv = items@.map_values(|j: usize| j as int);
    proof { lemma_named_children_bound(doc@, c as int, "Item"@, doc@.len() as int); }
    let mut i: usize = 0;
    while i < items.len()
        invariant
            i <= items@.len(),
            iv == items@.map_values(|j: usize| j as int),
            iv == named_children(doc@, c as int, "Item"@, doc@.len() as int),
            forall|x: int| 0 <= x < iv.len() ==> 0 <= #[trigger] iv[x] < doc@.len(),
            ref_views(out@) == item_refs(doc@, iv, i as int),
        decreases items@.len() - i,
    {
        assert(iv[i as int] == items@[i as int] as int);
        let ghost before = ref_views(out@);
        match doc.attribute(items[i], "href") {
            Some(h) => if h.unicode_len() > 0 {
                out.push(resource_ref(h.as_str()));
                assert(ref_views(out@) =~= before.push((href_id_of(h@), h@)));
            },
            None => {},
        }
        i = i + 1;
    }
    out
}

fn kind_exec(doc: &XmlDoc, n: usize) -> (k: String)
    requires
        n < doc@.len(),
    ensures
        k@ == kind_of(doc@, n as int),
{
    match doc.attribute(n, "type") {
        Some(t) => {
            let parts = split_vec(chars_of(t.as_str()).as_slice(), '.');
            proof { lemma_split_nonempty(t@, '.'); }
            assert(views_of(parts@) == split(t@, '.'));
            assert(parts@.len() >= 1);
            let last = &parts[parts.len() - 1];
            assert(views_of(parts@)[parts@.len() - 1] == last@);
            slug(string_of(last.as_slice()).as_str())
        },
        None => own("unknown"),
    }
}

fn target_hrefs(targets: &Vec<ResourceRef>) -> (out: Vec<&str>)
    ensures
        str_views(out@) == hrefs_of(ref_views(targets@)),
{
    let mut out: Vec<&str> = Vec::new();
    let mut i: usize = 0;
    while i < targets.len()
        invariant
            i <= targets@.len(),
            str_views(out@) == hrefs_of(ref_views(targets@)).take(i as int),
        decreases targets@.len() - i,
    {
        let ghost before = str_views(out@);
        out.push(targets[i].href.as_str());
        assert(str_views(out@) =~= before.push(targets@[i as int].href@));
        assert(hrefs_of(ref_views(targets@)).take(i + 1) =~= hrefs_of(ref_views(targets@)).take(i as int).push(targets@[i as int].href@));
        i = i + 1;
    }
    assert(hrefs_of(ref_views(targets@)).take(targets@.len() as int) =~= hrefs_of(ref_views(targets@)));
    out
}

fn objective_excluded() -> (out: Vec<&'static str>)
    ensures
        str_views(out@) == objective_mapped(),
{
    let mut v: Vec<&'static str> = Vec::new();
    v.push("customName");
    v.push("limit");
    v.push("isInternal");
    v.push("showCounterValue");
    v.push("items");
    v.push("objects");
    v.push("mobs");
    assert(str_views(v@) =~= objective_mapped());
    v
}

/// One objective from counter entry `n` of quest `quest_id`.
pub fn quest_objective(doc: &XmlDoc, n: usize, quest_id: &str, src: &str, referrer: &str) -> (o: QuestObjective)
    requires
        n < doc@.len(),
    ensures
        objective_of(doc@, n as int, quest_id@, src@, referrer@, o),
{
    let mut targets = refs_in_exec(doc, n, "items");
    let objects = refs_in_exec(doc, n, "objects");
    let mobs = refs_in_exec(doc, n, "mobs");
    let ghost t0 = ref_views(targets@);
    let mut objects = objects;
    let mut mobs = mobs;
    let ghost ov = ref_views(objects@);
    let ghost mv = ref_views(mobs@);
    targets.append(&mut objects);
    assert(ref_views(targets@) =~= t0 + ov);
    targets.append(&mut mobs);
    assert(ref_views(targets@) =~= t0 + ov + mv);
    let kind = kind_exec(doc, n);
    let source = doc.href(n, "id");
    let custom = doc.href(n, "customName");
    let hrefs = target_hrefs(&targets);
    let source_str: Option<&str> = match &source { Some(s) => Some(s.as_str()), None => None };
    let custom_str: Option<&str> = match &custom { Some(s) => Some(s.as_str()), None => None };
    assert(opt_str(source_str) == href_of(doc@, n as int, "id"@));
    assert(opt_str(custom_str) == href_of(doc@, n as int, "customName"@));
    let objective_id = derive_objective_id(quest_id, kind.as_str(), source_str, custom_str, hrefs.as_slice());
    let excluded = objective_excluded();
    QuestObjective {
        objective_id,
        kind,
        loc_ref: localized_exec(doc, n, "customName", src, referrer),
        limit: doc.i64_value(n, "limit"),
        internal: doc.bool_value(n, "isInternal"),
        show_count: doc.bool_value(n, "showCounterValue"),
        targets,
        extra: doc.extra_fields(n, excluded.as_slice()),
    }
}

fn prerequisites_exec(doc: &XmlDoc, c: usize) -> (out: Vec<QuestPrerequisite>)
    ensures
        out@.map_values(|p: QuestPrerequisite| prereq_view(p)) == prereqs_of(doc@, c as int, doc@.len() as int),
{
    let mut inside: Vec<bool> = Vec::new();
    let mut out: Vec<QuestPrerequisite> = Vec::new();
    let n = doc.len();
    let mut i: usize = 0;
    assert(out@.map_values(|p: QuestPrerequisite| prereq_view(p)) =~= Seq::<((Option<Seq<char>>, Seq<char>), Option<Seq<char>>)>::empty());
    while i < n
        invariant
            n == doc@.len(),
            i <= n,
            inside@.len() == i,
            forall|k: int| 0 <= k < i ==> inside@[k] == is_within(doc@, c as int, k),
            out@.map_values(|p: QuestPrerequisite| prereq_view(p)) == prereqs_of(doc@, c as int, i as int),
        decreases n - i,
    {
        let within = if i == c {
            true
        } else {
            match doc.element(i).parent {
                Some(p) => p < i && inside[p],
                None => false,
            }
        };
        assert(within == is_within(doc@, c as int, i as int));
        inside.push(within);
        if within {
            match doc.href(i, "quest") {
                Some(h) => {
                    let ghost before = out@.map_values(|p: QuestPrerequisite| prereq_view(p));
                    let quest = resource_ref(h.as_str());
                    let status = doc.text(i, "status");
                    let ghost v = ((opt_text(quest.id), quest.href@), opt_string(status));
                    out.push(QuestPrerequisite { quest, status });
                    assert(out@.map_values(|p: QuestPrerequisite| prereq_view(p)) =~= before.push(v));
                },
                None => {},
            }
        }
        i = i + 1;
    }
    out
}

fn reward_items_exec(doc: &XmlDoc, r: usize, coll: &str) -> (out: Vec<RewardItem>)
    ensures
        out@.map_values(|x: RewardItem| reward_view(x)) == reward_items_of(doc@, r as int, coll@),
{
    let mut out: Vec<RewardItem> = Vec::new();
    assert(out@.map_values(|x: RewardItem| reward_view(x)) =~= Seq::<((Option<Seq<char>>, Seq<char>), i64, Option<bool>)>::empty());
    let c = match doc.child(r, coll) {
        Some(c) => c,
        None => return out,
    };
    let items = doc.children(c, "Item");
    let ghost iv = items@.map_values(|j: usize| j as int);
    let mut i: usize = 0;
    while i < items.len()
        invariant
            i <= items@.len(),
            iv == items@.map_values(|j: usize| j as int),
            iv == named_children(doc@, c as int, "Item"@, doc@.len() as int),
            out@.map_values(|x: RewardItem| reward_view(x)) == rewards_in(doc@, iv, i as int),
        decreases items@.len() - i,
    {
        assert(iv[i as int] == items@[i as int] as int);
        let e = items[i];
        match doc.href(e, "item") {
            Some(h) => {
                let ghost before = out@.map_values(|x: RewardItem| reward_view(x));
                let item = resource_ref(h.as_str());
                let count = match doc.i64_value(e, "number") { Some(k) => k, None => 1 };
                let hidden = doc.bool_value(e, "hidden");
                let ghost v = ((opt_text(item.id), item.href@), count, hidden);
                out.push(RewardItem { item, count, hidden });
                assert(out@.map_values(|x: RewardItem| reward_view(x)) =~= before.push(v));
            },
            None => {},
        }
        i = i + 1;
    }
    out
}

fn reputations_exec(doc: &XmlDoc, r: usize) -> (out: Vec<Doc>)
    ensures
        list_view(out@) == reputations_of(doc@, r as int),
{
    let mut out: Vec<Doc> = Vec::new();
    assert(list_view(out@) =~= Seq::<DocView>::empty());
    let c = match doc.child(r, "reputations") {
        Some(c) => c,
        None => return out,
    };
    let items = doc.children(c, "Item");
    let ghost iv = items@.map_values(|j: usize| j as int);
    proof { lemma_named_children_bound(doc@, c as int, "Item"@, doc@.len() as int); }
    let mut i: usize = 0;
    while i < items.len()
        invariant
            i <= items@.len(),
            iv == items@.map_values(|j: usize| j as int),
            iv == named_children(doc@, c as int, "Item"@, doc@.len() as int),
            forall|x: int| 0 <= x < iv.len() ==> 0 <= #[trigger] iv[x] < doc@.len(),
            list_view(out@) == iv.take(i as int).map_values(|k: int| node_value_of(doc@, k)),
        decreases items@.len() - i,
    {
        assert(iv[i as int] == items@[i as int] as int);
        let ghost before = list_view(out@);
        let v = doc.node_value(items[i]);
        out.push(v);
        assert(list_view(out@) =~= before.push(node_value_of(doc@, iv[i as int])));
        assert(iv.take(i + 1).map_values(|k: int| node_value_of(doc@, k))
            =~= iv.take(i as int).map_values(|k: int| node_value_of(doc@, k)).push(node_value_of(doc@, iv[i as int])));
        i = i + 1;
    }
    assert(iv.take(items@.len() as int) =~= iv);
    out
}

fn rewards_exec(doc: &XmlDoc) -> (w: QuestRewards)
    ensures
        rewards_of(doc@, w),
{
    match doc.child(0, "reward") {
        Some(r) => QuestRewards {
            experience: doc.i64_value(r, "experience"),
            money: doc.i64_value(r, "money"),
            honor: doc.i64_value(r, "honor"),
            mandatory_items: reward_items_exec(doc, r, "mandatoryItems"),
            alternative_items: reward_items_exec(doc, r, "alternativeItems"),
            reputations: reputations_exec(doc, r),
        },
        None => QuestRewards {
            experience: None,
            money: None,
            honor: None,
            mandatory_items: Vec::new(),
            alternative_items: Vec::new(),
            reputations: Vec::new(),
        },
    }
}

fn quest_flag_values(doc: &XmlDoc) -> (out: Vec<(String, bool)>)
    ensures
        flag_views(out@) == flags_of(doc@, 0, quest_flags()),
{
    let mut pairs: Vec<(&str, &str)> = Vec::new();
    pairs.push(("autoSetGoalLocation", "auto_set_goal_location"));
    pairs.push(("autoSetReturnLocation", "auto_set_return_location"));
    pairs.push(("canCancel", "can_cancel"));
    pairs.push(("pvp", "pvp"));
    pairs.push(("secretSequence", "secret_sequence"));
    pairs.push(("tutorial", "tutorial"));
    let ghost pv = pairs@.map_values(|p: (&str, &str)| (p.0@, p.1@));
    assert(pv =~= quest_flags());
    let mut out: Vec<(String, bool)> = Vec::new();
    let mut i: usize = 0;
    assert(pv.take(0) =~= Seq::<(Seq<char>, Seq<char>)>::empty());
    assert(flag_views(out@) =~= Seq::<(Seq<char>, bool)>::empty());
    while i < pairs.len()
        invariant
            i <= pairs@.len(),
            pv == pairs@.map_values(|p: (&str, &str)| (p.0@, p.1@)),
            flag_views(out@) == flags_of(doc@, 0, pv.take(i as int)),
        decreases pairs@.len() - i,
    {
        assert(pv.take(i + 1).drop_last() =~= pv.take(i as int));
        assert(pv.take(i + 1).last() == pv[i as int]);
        let (source_name, output_name) = pairs[i];
        match doc.bool_value(0, source_name) {
            Some(b) => {
                let ghost before = flag_views(out@);
                out.push((own(output_name), b));
                assert(flag_views(out@) =~= before.push((output_name@, b)));
            },
            None => {},
        }
        i = i + 1;
    }
    assert(pv.take(pairs@.len() as int) =~= pv);
    out
}

fn quest_excluded() -> (out: Vec<&'static str>)
    ensures
        str_views(out@) == quest_mapped(),
{
    let mut v: Vec<&'static str> = Vec::new();
    v.push("Header");
    v.push("internalName");
    v.push("name");
    v.push("goal");
    v.push("startText");
    v.push("checkText");
    v.push("finishText");
    v.push("level");
    v.push("requiredLevel");
    v.push("type");
    v.push("plotline");
    v.push("finisher");
    v.push("startConditions");
    v.push("counters");
    v.push("reward");
    v.push("canCancel");
    v.push("pvp");
    v.push("secretSequence");
    v.push("tutorial");
    v.push("autoSetGoalLocation");
    v.push("autoSetReturnLocation");
    assert(str_views(v@) =~= quest_mapped());
    v
}

fn objectives_exec(doc: &XmlDoc, quest_id: &str, src: &str, referrer: &str) -> (out: Vec<QuestObjective>)
    ensures
        out@.len() == counter_entries(doc@).len(),
        forall|k: int| 0 <= k < counter_entries(doc@).len()
            ==> objective_of(doc@, counter_entries(doc@)[k], quest_id@, src@, referrer@, #[trigger] out@[k]),
{
    let mut out: Vec<QuestObjective> = Vec::new();
    let c = match doc.child(0, "counters") {
        Some(c) => c,
        None => return out,
    };
    let items = doc.children(c, "Item");
    let ghost iv = items@.map_values(|j: usize| j as int);
    proof { lemma_named_children_bound(doc@, c as int, "Item"@, doc@.len() as int); }
    let mut i: usize = 0;
    while i < items.len()
        invariant
            i <= items@.len(),
            iv == items@.map_values(|j: usize| j as int),
            iv == counter_entries(doc@),
            forall|x: int| 0 <= x < iv.len() ==> 0 <= #[trigger] iv[x] < doc@.len(),
            out@.len() == i,
            forall|k: int| 0 <= k < i ==> objective_of(doc@, iv[k], quest_id@, src@, referrer@, #[trigger] out@[k]),
        decreases items@.len() - i,
    {
        assert(iv[i as int] == items@[i as int] as int);
        let o = quest_objective(doc, items[i], quest_id, src, referrer);
        out.push(o);
        i = i + 1;
    }
    out
}

/// A quest document from its parsed resource: its id and zone slug, the mob
/// that starts it when one does, and the source root and path its
/// localization keys resolve against.
pub fn quest_document(doc: &XmlDoc, id: String, zone: &str, starter: Option<ResourceRef>, src: &str, referrer: &str,
    source: Provenance) -> (d: QuestDocument)
    ensures
        quest_fields(d, doc@, id@, zone@, opt_ref_view(starter), src@, referrer@),
        d.source == source,
{
    let n = doc.len();
    let mut zone_id = chars_of("zone.");
    crate::text::push_str(&mut zone_id, zone);
    proof { reveal_strlit("zone."); }
    assert(zone_id@ =~= "zone."@ + zone@);
    let finisher = match doc.child(0, "finisher") {
        Some(f) => ref_opt(doc.href(f, "mobWorld")),
        None => None,
    };
    let prerequisites = match doc.child(0, "startConditions") {
        Some(c) => prerequisites_exec(doc, c),
        None => {
            let v: Vec<QuestPrerequisite> = Vec::new();
            assert(v@.map_values(|p: QuestPrerequisite| prereq_view(p)) =~= Seq::<((Option<Seq<char>>, Seq<char>), Option<Seq<char>>)>::empty());
            v
        },
    };
    let objectives = objectives_exec(doc, id.as_str(), src, referrer);
    let excluded = quest_excluded();
    QuestDocument {
        schema_version: 1,
        zone: string_of(zone_id.as_slice()),
        source_type: own(doc.element(0).name.as_str()),
        resource_id: doc.resource_id(0),
        internal_name: doc.text(0, "internalName"),
        loc_ref: LocRefs {
            name: localized_exec(doc, 0, "name", src, referrer),
            description: None,
            bind_description: None,
            goal: localized_exec(doc, 0, "goal", src, referrer),
            start: localized_exec(doc, 0, "startText", src, referrer),
            check: localized_exec(doc, 0, "checkText", src, referrer),
            finish: localized_exec(doc, 0, "finishText", src, referrer),
            title: None,
        },
        level: doc.i64_value(0, "level"),
        required_level: doc.i64_value(0, "requiredLevel"),
        quest_type: slug_opt(doc.text(0, "type")),
        plotline: doc.text(0, "plotline"),
        starter,
        finisher,
        prerequisites,
        objectives,
        rewards: rewards_exec(doc),
        flags: quest_flag_values(doc),
        extra: doc.extra_fields(0, excluded.as_slice()),
        source,
        id,
    }
}

} // verus!
