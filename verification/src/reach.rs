//! Which loot tables and item documents a zone build carries: the tables its
//! mobs reach (and those an overlay curated), then exactly the items those
//! tables, the chargen options, the quests and the script trees name.

use vstd::prelude::*;
use crate::overlay::lex_lt;
use crate::scan::{lex_le, lex_le_exec, lemma_lex_total, lemma_lex_transitive, lemma_lex_antisym};
use crate::source::{
    SourceTree, LootTableDocument, LootNodeDocument, ScriptRefDocument, opt_ref_target, ref_target, opt_view,
    collect_script_refs, ref_views, refs_of_node,
};
use crate::text::{chars_of, string_of, seq_eq, eq_str, starts_with_str, has_prefix};

verus! {

/// Ids in strictly ascending order, so each at most once.
pub open spec fn ascending(s: Seq<String>) -> bool {
    forall|i: int, j: int| 0 <= i < j < s.len() ==> lex_lt(#[trigger] s[i]@, #[trigger] s[j]@)
}

/// The ids a list holds.
pub open spec fn id_set(s: Seq<String>) -> Set<Seq<char>> {
    Set::new(|x: Seq<char>| exists|i: int| 0 <= i < s.len() && s[i]@ == x)
}

fn precedes(a: &String, b: &[char]) -> (r: bool)
    ensures
        r == lex_lt(a@, b@),
{
    let c = chars_of(a.as_str());
    lex_le_exec(c.as_slice(), b) && !seq_eq(c.as_slice(), b)
}

/// Adds `x` to an ascending id list unless it is already there.
pub fn insert_id(ids: &mut Vec<String>, x: &str)
    requires
        ascending(old(ids)@),
    ensures
        ascending(final(ids)@),
        id_set(final(ids)@) == id_set(old(ids)@).insert(x@),
{
    let xs = chars_of(x);
    let mut j: usize = 0;
    while j < ids.len() && precedes(&ids[j], xs.as_slice())
        invariant
            j <= ids@.len(),
            xs@ == x@,
            forall|k: int| 0 <= k < j ==> lex_lt(#[trigger] ids@[k]@, x@),
        decreases ids@.len() - j,
    {
        j = j + 1;
    }
    if j < ids.len() && eq_str(xs.as_slice(), ids[j].as_str()) {
        assert(id_set(ids@) =~= id_set(ids@).insert(x@)) by {
            assert(ids@[j as int]@ == x@);
        }
        return;
    }
    let ghost before = ids@;
    proof {
        if j < before.len() {
            lemma_lex_total(before[j as int]@, x@);
            assert(lex_lt(x@, before[j as int]@));
        }
        assert forall|k: int| j <= k < before.len() implies lex_lt(x@, #[trigger] before[k]@) by {
            if k > j {
                assert(lex_lt(before[j as int]@, before[k]@));
                lemma_lex_transitive(x@, before[j as int]@, before[k]@);
                if x@ == before[k]@ {
                    lemma_lex_antisym(before[j as int]@, before[k]@);
                }
            }
        }
    }
    ids.insert(j, string_of(xs.as_slice()));
    assert(ids@ =~= before.take(j as int).push(ids@[j as int]) + before.skip(j as int));
    assert forall|a: int, b: int| 0 <= a < b < ids@.len() implies lex_lt(#[trigger] ids@[a]@, #[trigger] ids@[b]@) by {
        if a < j && b == j {
        } else if a < j && b > j {
            assert(ids@[b] == before[b - 1]);
        } else if a == j {
            assert(ids@[b] == before[b - 1]);
        } else if a > j {
            assert(ids@[a] == before[a - 1]);
            assert(ids@[b] == before[b - 1]);
        }
    }
    assert forall|y: Seq<char>| #[trigger] id_set(ids@).contains(y) <==> id_set(before).insert(x@).contains(y) by {
        if id_set(ids@).contains(y) {
            let i = choose|i: int| 0 <= i < ids@.len() && ids@[i]@ == y;
            if i < j {
                assert(before[i]@ == y);
            } else if i > j {
                assert(before[i - 1]@ == y);
            }
        }
        if id_set(before).contains(y) {
            let i = choose|i: int| 0 <= i < before.len() && before[i]@ == y;
            if i < j {
                assert(ids@[i]@ == y);
            } else {
                assert(ids@[i + 1]@ == y);
            }
        }
        if y == x@ {
            assert(ids@[j as int]@ == y);
        }
    }
    assert(id_set(ids@) =~= id_set(before).insert(x@));
}

// ----- loot tables ---------------------------------------------------------------------

/// The loot tables a zone build wants: every table one of its mobs drops
/// from, and every table an overlay layer curated, reached or not.
pub open spec fn wanted_loot(tree: SourceTree) -> Set<Seq<char>> {
    Set::new(|x: Seq<char>|
        (exists|i: int| 0 <= i < tree.mobs@.len() && opt_ref_target(#[trigger] tree.mobs@[i].loot_table) == Some(x))
        || (exists|i: int| 0 <= i < tree.notes@.len() && (#[trigger] tree.notes@[i]).layer@ != "base"@
            && has_prefix(tree.notes@[i].document_id@, "loot."@) && tree.notes@[i].document_id@ == x))
}

/// The ids of the loot tables the zone's mobs reach, and those an overlay
/// curated, ascending.
pub fn wanted_loot_tables(tree: &SourceTree) -> (out: Vec<String>)
    ensures
        ascending(out@),
        id_set(out@) == wanted_loot(*tree),
{
    let mut out: Vec<String> = Vec::new();
    let mut i: usize = 0;
    assert(id_set(out@) =~= Set::<Seq<char>>::empty());
    while i < tree.mobs.len()
        invariant
            i <= tree.mobs@.len(),
            ascending(out@),
            id_set(out@) == Set::new(|x: Seq<char>|
                exists|k: int| 0 <= k < i && opt_ref_target(#[trigger] tree.mobs@[k].loot_table) == Some(x)),
        decreases tree.mobs@.len() - i,
    {
        let ghost before = id_set(out@);
        match &tree.mobs[i].loot_table {
            Some(r) => match r.id() {
                Some(id) => insert_id(&mut out, id),
                None => {},
            },
            None => {},
        }
        assert(id_set(out@) =~= Set::new(|x: Seq<char>|
            exists|k: int| 0 <= k < i + 1 && opt_ref_target(#[trigger] tree.mobs@[k].loot_table) == Some(x))) by {
            assert forall|x: Seq<char>| (exists|k: int| 0 <= k < i + 1 && opt_ref_target(#[trigger] tree.mobs@[k].loot_table) == Some(x))
                implies id_set(out@).contains(x) by {
                let k = choose|k: int| 0 <= k < i + 1 && opt_ref_target(#[trigger] tree.mobs@[k].loot_table) == Some(x);
                if k < i {
                    assert(before.contains(x));
                }
            }
        }
        i = i + 1;
    }
    let ghost from_mobs = id_set(out@);
    let mut n: usize = 0;
    while n < tree.notes.len()
        invariant
            n <= tree.notes@.len(),
            ascending(out@),
            from_mobs == Set::new(|x: Seq<char>|
                exists|k: int| 0 <= k < tree.mobs@.len() && opt_ref_target(#[trigger] tree.mobs@[k].loot_table) == Some(x)),
            id_set(out@) == from_mobs + Set::new(|x: Seq<char>|
                exists|k: int| 0 <= k < n && (#[trigger] tree.notes@[k]).layer@ != "base"@
                    && has_prefix(tree.notes@[k].document_id@, "loot."@) && tree.notes@[k].document_id@ == x),
        decreases tree.notes@.len() - n,
    {
        let ghost before = id_set(out@);
        let note = &tree.notes[n];
        let layer = chars_of(note.layer.as_str());
        let doc = chars_of(note.document_id.as_str());
        if !eq_str(layer.as_slice(), "base") && starts_with_str(doc.as_slice(), "loot.") {
            insert_id(&mut out, note.document_id.as_str());
        }
        assert(id_set(out@) =~= from_mobs + Set::new(|x: Seq<char>|
            exists|k: int| 0 <= k < n + 1 && (#[trigger] tree.notes@[k]).layer@ != "base"@
                && has_prefix(tree.notes@[k].document_id@, "loot."@) && tree.notes@[k].document_id@ == x)) by {
            assert forall|x: Seq<char>| (exists|k: int| 0 <= k < n + 1 && (#[trigger] tree.notes@[k]).layer@ != "base"@
                && has_prefix(tree.notes@[k].document_id@, "loot."@) && tree.notes@[k].document_id@ == x)
                implies id_set(out@).contains(x) by {
                let k = choose|k: int| 0 <= k < n + 1 && (#[trigger] tree.notes@[k]).layer@ != "base"@
                    && has_prefix(tree.notes@[k].document_id@, "loot."@) && tree.notes@[k].document_id@ == x;
                if k < n {
                    assert(before.contains(x));
                }
            }
        }
        n = n + 1;
    }
    assert(id_set(out@) =~= wanted_loot(*tree));
    out
}

/// The tables whose ids are in `wanted`, in their order.
pub open spec fn kept_tables(tables: Seq<LootTableDocument>, wanted: Set<Seq<char>>) -> Seq<LootTableDocument>
    decreases tables.len(),
{
    if tables.len() == 0 {
        tables
    } else if wanted.contains(tables.last().id@) {
        kept_tables(tables.drop_last(), wanted).push(tables.last())
    } else {
        kept_tables(tables.drop_last(), wanted)
    }
}

proof fn lemma_kept_len(tables: Seq<LootTableDocument>, wanted: Set<Seq<char>>)
    ensures
        kept_tables(tables, wanted).len() <= tables.len(),
    decreases tables.len(),
{
    if tables.len() > 0 {
        lemma_kept_len(tables.drop_last(), wanted);
    }
}

/// Loot tables one per id, in id order, as the loader holds them.
pub open spec fn tables_by_id(t: Seq<LootTableDocument>) -> bool {
    forall|i: int, j: int| 0 <= i < j < t.len() ==> lex_lt(#[trigger] t[i].id@, #[trigger] t[j].id@)
}

proof fn lemma_kept_by_id(tables: Seq<LootTableDocument>, wanted: Set<Seq<char>>)
    requires
        tables_by_id(tables),
    ensures
        tables_by_id(kept_tables(tables, wanted)),
        forall|k: int| 0 <= k < kept_tables(tables, wanted).len()
            ==> tables.contains(#[trigger] kept_tables(tables, wanted)[k]),
    decreases tables.len(),
{
    if tables.len() > 0 {
        let rest = tables.drop_last();
        assert(tables_by_id(rest)) by {
            assert forall|i: int, j: int| 0 <= i < j < rest.len() implies lex_lt(#[trigger] rest[i].id@, #[trigger] rest[j].id@) by {
                assert(rest[i] == tables[i] && rest[j] == tables[j]);
            }
        }
        lemma_kept_by_id(rest, wanted);
        let k0 = kept_tables(rest, wanted);
        assert forall|k: int| 0 <= k < k0.len() implies tables.contains(#[trigger] k0[k]) by {
            let w = choose|w: int| 0 <= w < rest.len() && rest[w] == k0[k];
            assert(tables[w] == rest[w]);
        }
        if wanted.contains(tables.last().id@) {
            let k1 = k0.push(tables.last());
            assert(k1 == kept_tables(tables, wanted));
            assert forall|i: int, j: int| 0 <= i < j < k1.len() implies lex_lt(#[trigger] k1[i].id@, #[trigger] k1[j].id@) by {
                if j == k0.len() {
                    assert(k1[i] == k0[i]);
                    let w = choose|w: int| 0 <= w < rest.len() && rest[w] == k0[i];
                    assert(tables[w] == rest[w]);
                    assert(lex_lt(tables[w].id@, tables[tables.len() - 1].id@));
                } else {
                    assert(k1[i] == k0[i] && k1[j] == k0[j]);
                }
            }
            assert forall|k: int| 0 <= k < k1.len() implies tables.contains(#[trigger] k1[k]) by {
                if k < k0.len() {
                    assert(k1[k] == k0[k]);
                } else {
                    assert(tables[tables.len() - 1] == k1[k]);
                }
            }
        }
    }
}

/// A zone build keeps exactly the loot tables it wants: every kept table has
/// a wanted id, and every table with a wanted id is kept.
pub proof fn lemma_kept_tables_are_the_wanted_ones(tables: Seq<LootTableDocument>, wanted: Set<Seq<char>>)
    ensures
        forall|k: int| 0 <= k < kept_tables(tables, wanted).len()
            ==> wanted.contains((#[trigger] kept_tables(tables, wanted)[k]).id@),
        forall|j: int| 0 <= j < tables.len() && wanted.contains((#[trigger] tables[j]).id@)
            ==> kept_tables(tables, wanted).contains(tables[j]),
    decreases tables.len(),
{
    if tables.len() > 0 {
        let rest = tables.drop_last();
        lemma_kept_tables_are_the_wanted_ones(rest, wanted);
        let k0 = kept_tables(rest, wanted);
        let all = kept_tables(tables, wanted);
        assert forall|k: int| 0 <= k < all.len() implies wanted.contains((#[trigger] all[k]).id@) by {
            if k < k0.len() {
                assert(all[k] == k0[k]);
            }
        }
        assert forall|j: int| 0 <= j < tables.len() && wanted.contains((#[trigger] tables[j]).id@)
            implies all.contains(tables[j]) by {
            if j < rest.len() {
                assert(rest[j] == tables[j]);
                let w = choose|w: int| 0 <= w < k0.len() && k0[w] == rest[j];
                assert(all[w] == k0[w]);
            } else {
                assert(all[all.len() - 1] == tables[j]);
            }
        }
    }
}

/// Keeps the loot tables a zone build reaches, and counts those it leaves.
/// The tables come one per id in id order, as the loader holds them, and the
/// kept ones stay in id order.
pub fn split_reachable(tables: Vec<LootTableDocument>, wanted: &Vec<String>) -> (out: (Vec<LootTableDocument>, usize))
    requires
        tables_by_id(tables@),
    ensures
        out.0@ == kept_tables(tables@, id_set(wanted@)),
        tables_by_id(out.0@),
        out.1 == tables@.len() - out.0@.len(),
{
    let ghost tv = tables@;
    let total = tables.len();
    let mut rest = tables;
    let mut kept: Vec<LootTableDocument> = Vec::new();
    let ghost mut i: int = 0;
    assert(tv.take(0) =~= Seq::<LootTableDocument>::empty());
    assert(tv.skip(0) =~= tv);
    while rest.len() > 0
        invariant
            0 <= i <= tv.len(),
            total == tv.len(),
            rest@ == tv.skip(i),
            kept@ == kept_tables(tv.take(i), id_set(wanted@)),
        decreases rest@.len(),
    {
        let t = rest.remove(0);
        assert(tv.skip(i)[0] == t);
        assert(tv.take(i + 1).drop_last() =~= tv.take(i));
        assert(tv.take(i + 1).last() == t);
        if contains_id(wanted, t.id.as_str()) {
            kept.push(t);
        }
        proof {
            assert(tv.skip(i).drop_first() =~= tv.skip(i + 1));
            i = i + 1;
        }
    }
    assert(tv.take(i) =~= tv);
    proof {
        lemma_kept_len(tv, id_set(wanted@));
        lemma_kept_by_id(tv, id_set(wanted@));
    }
    let n = total - kept.len();
    (kept, n)
}

/// Whether `x` is among `ids`.
pub fn contains_id(ids: &Vec<String>, x: &str) -> (r: bool)
    ensures
        r == id_set(ids@).contains(x@),
{
    let xs = chars_of(x);
    let mut i: usize = 0;
    while i < ids.len()
        invariant
            i <= ids@.len(),
            xs@ == x@,
            forall|k: int| 0 <= k < i ==> (#[trigger] ids@[k])@ != x@,
        decreases ids@.len() - i,
    {
        if eq_str(xs.as_slice(), ids[i].as_str()) {
            return true;
        }
        i = i + 1;
    }
    false
}

// ----- items -------------------------------------------------------------------------

/// The items a loot tree grants, at any depth.
pub open spec fn loot_items(n: LootNodeDocument) -> Set<Seq<char>>
    decreases n,
{
    (match opt_ref_target(n.item) {
        Some(t) => set![t],
        None => Set::empty(),
    }) + loot_items_of(n.entries@)
}

pub open spec fn loot_items_of(s: Seq<LootNodeDocument>) -> Set<Seq<char>>
    decreases s,
{
    if s.len() == 0 {
        Set::empty()
    } else {
        loot_items_of(s.drop_last()) + loot_items(s.last())
    }
}

/// Adds every item a loot tree grants.
pub fn collect_loot_items(node: &LootNodeDocument, into: &mut Vec<String>)
    requires
        ascending(old(into)@),
    ensures
        ascending(final(into)@),
        id_set(final(into)@) == id_set(old(into)@) + loot_items(*node),
    decreases node,
{
    let ghost start = id_set(into@);
    match &node.item {
        Some(r) => match r.id() {
            Some(id) => insert_id(into, id),
            None => {},
        },
        None => {},
    }
    let ghost own = id_set(into@);
    let mut i: usize = 0;
    assert(node.entries@.take(0) =~= Seq::<LootNodeDocument>::empty());
    while i < node.entries.len()
        invariant
            i <= node.entries@.len(),
            ascending(into@),
            id_set(into@) == own + loot_items_of(node.entries@.take(i as int)),
        decreases node.entries@.len() - i,
    {
        assert(node.entries@.take(i + 1).drop_last() =~= node.entries@.take(i as int));
        assert(node.entries@.take(i + 1).last() == node.entries@[i as int]);
        proof {
            vstd::std_specs::vec::axiom_vec_index_decreases(node.entries, i as int);
        }
        collect_loot_items(&node.entries[i], into);
        assert(id_set(into@) =~= own + loot_items_of(node.entries@.take(i + 1)));
        i = i + 1;
    }
    assert(node.entries@.take(node.entries@.len() as int) =~= node.entries@);
    assert(id_set(into@) =~= start + loot_items(*node));
}

/// The items the given loot tables grant.
pub open spec fn table_items(tables: Seq<LootTableDocument>) -> Set<Seq<char>> {
    Set::new(|x: Seq<char>| exists|i: int| 0 <= i < tables.len() && loot_items(#[trigger] tables[i].root).contains(x))
}

/// The items a chargen option starts with.
pub open spec fn loadout_of(o: crate::source::ChargenDocument) -> Set<Seq<char>> {
    Set::new(|x: Seq<char>| exists|j: int| 0 <= j < o.starting_loadout@.len() && (#[trigger] o.starting_loadout@[j]).item_id@ == x)
}

pub open spec fn loadout_items(options: Seq<crate::source::ChargenDocument>) -> Set<Seq<char>> {
    Set::new(|x: Seq<char>| exists|i: int| 0 <= i < options.len() && loadout_of(#[trigger] options[i]).contains(x))
}

pub open spec fn reward_refs(items: Seq<crate::source::QuestRewardItemDocument>) -> Set<Seq<char>> {
    Set::new(|x: Seq<char>| exists|j: int| 0 <= j < items.len() && ref_target((#[trigger] items[j]).item) == Some(x))
}

pub open spec fn objective_targets(o: crate::source::QuestObjectiveDocument) -> Set<Seq<char>> {
    Set::new(|x: Seq<char>| exists|k: int| 0 <= k < o.targets@.len() && ref_target(#[trigger] o.targets@[k]) == Some(x)
        && has_prefix(x, "item."@))
}

/// The items a quest hands out or asks for: its mandatory and alternative
/// rewards, and objective targets that are items.
pub open spec fn quest_items_of(q: crate::source::QuestDocument) -> Set<Seq<char>> {
    reward_refs(q.rewards.mandatory_items@) + reward_refs(q.rewards.alternative_items@)
        + Set::new(|x: Seq<char>| exists|j: int| 0 <= j < q.objectives@.len() && objective_targets(#[trigger] q.objectives@[j]).contains(x))
}

pub open spec fn quest_items(quests: Seq<crate::source::QuestDocument>) -> Set<Seq<char>> {
    Set::new(|x: Seq<char>| exists|i: int| 0 <= i < quests.len() && quest_items_of(#[trigger] quests[i]).contains(x))
}

/// The items a script tree names by reference.
pub open spec fn node_items(n: crate::source::ScriptNodeDocument) -> Set<Seq<char>> {
    Set::new(|x: Seq<char>| exists|k: int| 0 <= k < refs_of_node(n).len() && (#[trigger] refs_of_node(n)[k]).0 == x
        && refs_of_node(n)[k].1 == Some("item"@))
}

pub open spec fn nodes_items(nodes: Seq<crate::source::ScriptNodeDocument>) -> Set<Seq<char>> {
    Set::new(|x: Seq<char>| exists|j: int| 0 <= j < nodes.len() && node_items(#[trigger] nodes[j]).contains(x))
}

/// The items the quest script surfaces and the shared trigger trees name.
pub open spec fn script_items(tree: SourceTree) -> Set<Seq<char>> {
    Set::new(|x: Seq<char>|
        (exists|i: int| 0 <= i < tree.quest_scripts@.len()
            && (nodes_items((#[trigger] tree.quest_scripts@[i]).start_impacts@).contains(x)
                || nodes_items(tree.quest_scripts@[i].trigger_agents@).contains(x)))
        || (exists|i: int| 0 <= i < tree.script_triggers@.len() && node_items((#[trigger] tree.script_triggers@[i]).root).contains(x)))
}

/// The item documents a zone build ships: those its reachable loot tables,
/// chargen options, quests and script trees name, and those an overlay
/// supplies outright.
pub open spec fn wanted_items(tree: SourceTree, reachable: Seq<LootTableDocument>, supplied: Seq<String>) -> Set<Seq<char>> {
    table_items(reachable) + loadout_items(tree.chargen_options@) + quest_items(tree.quests@) + script_items(tree)
        + id_set(supplied)
}

fn add_refs(items: &Vec<crate::source::QuestRewardItemDocument>, into: &mut Vec<String>)
    requires
        ascending(old(into)@),
    ensures
        ascending(final(into)@),
        id_set(final(into)@) == id_set(old(into)@) + reward_refs(items@),
{
    let ghost start = id_set(into@);
    let mut j: usize = 0;
    while j < items.len()
        invariant
            j <= items@.len(),
            ascending(into@),
            id_set(into@) == start + Set::new(|x: Seq<char>| exists|k: int| 0 <= k < j && ref_target((#[trigger] items@[k]).item) == Some(x)),
        decreases items@.len() - j,
    {
        let ghost before = id_set(into@);
        match items[j].item.id() {
            Some(id) => insert_id(into, id),
            None => {},
        }
        assert(id_set(into@) =~= start + Set::new(|x: Seq<char>| exists|k: int| 0 <= k < j + 1 && ref_target((#[trigger] items@[k]).item) == Some(x))) by {
            assert forall|x: Seq<char>| (exists|k: int| 0 <= k < j + 1 && ref_target((#[trigger] items@[k]).item) == Some(x))
                implies id_set(into@).contains(x) by {
                let k = choose|k: int| 0 <= k < j + 1 && ref_target((#[trigger] items@[k]).item) == Some(x);
                if k < j {
                    assert(before.contains(x));
                }
            }
        }
        j = j + 1;
    }
    assert(id_set(into@) =~= start + reward_refs(items@));
}

fn add_objective(o: &crate::source::QuestObjectiveDocument, into: &mut Vec<String>)
    requires
        ascending(old(into)@),
    ensures
        ascending(final(into)@),
        id_set(final(into)@) == id_set(old(into)@) + objective_targets(*o),
{
    let ghost start = id_set(into@);
    let mut k: usize = 0;
    while k < o.targets.len()
        invariant
            k <= o.targets@.len(),
            ascending(into@),
            id_set(into@) == start + Set::new(|x: Seq<char>| exists|m: int| 0 <= m < k && ref_target(#[trigger] o.targets@[m]) == Some(x)
                && has_prefix(x, "item."@)),
        decreases o.targets@.len() - k,
    {
        let ghost before = id_set(into@);
        match o.targets[k].id() {
            Some(id) => {
                let cs = chars_of(id);
                if starts_with_str(cs.as_slice(), "item.") {
                    insert_id(into, id);
                }
            },
            None => {},
        }
        assert(id_set(into@) =~= start + Set::new(|x: Seq<char>| exists|m: int| 0 <= m < k + 1 && ref_target(#[trigger] o.targets@[m]) == Some(x)
            && has_prefix(x, "item."@))) by {
            assert forall|x: Seq<char>| (exists|m: int| 0 <= m < k + 1 && ref_target(#[trigger] o.targets@[m]) == Some(x)
                && has_prefix(x, "item."@)) implies id_set(into@).contains(x) by {
                let m = choose|m: int| 0 <= m < k + 1 && ref_target(#[trigger] o.targets@[m]) == Some(x) && has_prefix(x, "item."@);
                if m < k {
                    assert(before.contains(x));
                }
            }
        }
        k = k + 1;
    }
    assert(id_set(into@) =~= start + objective_targets(*o));
}

fn add_quest(q: &crate::source::QuestDocument, into: &mut Vec<String>)
    requires
        ascending(old(into)@),
    ensures
        ascending(final(into)@),
        id_set(final(into)@) == id_set(old(into)@) + quest_items_of(*q),
{
    let ghost start = id_set(into@);
    add_refs(&q.rewards.mandatory_items, into);
    add_refs(&q.rewards.alternative_items, into);
    let ghost rewards = id_set(into@);
    let mut j: usize = 0;
    while j < q.objectives.len()
        invariant
            j <= q.objectives@.len(),
            ascending(into@),
            id_set(into@) == rewards + Set::new(|x: Seq<char>| exists|k: int| 0 <= k < j && objective_targets(#[trigger] q.objectives@[k]).contains(x)),
        decreases q.objectives@.len() - j,
    {
        let ghost before = id_set(into@);
        add_objective(&q.objectives[j], into);
        assert(id_set(into@) =~= rewards + Set::new(|x: Seq<char>| exists|k: int| 0 <= k < j + 1 && objective_targets(#[trigger] q.objectives@[k]).contains(x))) by {
            assert forall|x: Seq<char>| (exists|k: int| 0 <= k < j + 1 && objective_targets(#[trigger] q.objectives@[k]).contains(x))
                implies id_set(into@).contains(x) by {
                let k = choose|k: int| 0 <= k < j + 1 && objective_targets(#[trigger] q.objectives@[k]).contains(x);
                if k < j {
                    assert(before.contains(x));
                }
            }
        }
        j = j + 1;
    }
    assert(id_set(into@) =~= start + quest_items_of(*q));
}

fn add_node_items(node: &crate::source::ScriptNodeDocument, into: &mut Vec<String>)
    requires
        ascending(old(into)@),
    ensures
        ascending(final(into)@),
        id_set(final(into)@) == id_set(old(into)@) + node_items(*node),
{
    let ghost start = id_set(into@);
    let mut refs: Vec<ScriptRefDocument> = Vec::new();
    collect_script_refs(node, &mut refs);
    assert(ref_views(refs@) =~= refs_of_node(*node));
    let ghost rv = ref_views(refs@);
    let mut k: usize = 0;
    while k < refs.len()
        invariant
            k <= refs@.len(),
            rv == ref_views(refs@),
            rv == refs_of_node(*node),
            ascending(into@),
            id_set(into@) == start + Set::new(|x: Seq<char>| exists|m: int| 0 <= m < k && (#[trigger] rv[m]).0 == x && rv[m].1 == Some("item"@)),
        decreases refs@.len() - k,
    {
        let ghost before = id_set(into@);
        let is_item = match &refs[k].row_type {
            Some(t) => eq_str(chars_of(t.as_str()).as_slice(), "item"),
            None => false,
        };
        assert(rv[k as int] == crate::source::ref_view(refs@[k as int]));
        if is_item {
            insert_id(into, refs[k].id.as_str());
        }
        assert(id_set(into@) =~= start + Set::new(|x: Seq<char>| exists|m: int| 0 <= m < k + 1 && (#[trigger] rv[m]).0 == x && rv[m].1 == Some("item"@))) by {
            assert forall|x: Seq<char>| (exists|m: int| 0 <= m < k + 1 && (#[trigger] rv[m]).0 == x && rv[m].1 == Some("item"@))
                implies id_set(into@).contains(x) by {
                let m = choose|m: int| 0 <= m < k + 1 && (#[trigger] rv[m]).0 == x && rv[m].1 == Some("item"@);
                if m < k {
                    assert(before.contains(x));
                }
            }
        }
        k = k + 1;
    }
    assert(id_set(into@) =~= start + node_items(*node));
}

fn add_nodes_items(nodes: &Vec<crate::source::ScriptNodeDocument>, into: &mut Vec<String>)
    requires
        ascending(old(into)@),
    ensures
        ascending(final(into)@),
        id_set(final(into)@) == id_set(old(into)@) + nodes_items(nodes@),
{
    let ghost start = id_set(into@);
    let mut j: usize = 0;
    while j < nodes.len()
        invariant
            j <= nodes@.len(),
            ascending(into@),
            id_set(into@) == start + Set::new(|x: Seq<char>| exists|k: int| 0 <= k < j && node_items(#[trigger] nodes@[k]).contains(x)),
        decreases nodes@.len() - j,
    {
        let ghost before = id_set(into@);
        add_node_items(&nodes[j], into);
        assert(id_set(into@) =~= start + Set::new(|x: Seq<char>| exists|k: int| 0 <= k < j + 1 && node_items(#[trigger] nodes@[k]).contains(x))) by {
            assert forall|x: Seq<char>| (exists|k: int| 0 <= k < j + 1 && node_items(#[trigger] nodes@[k]).contains(x))
                implies id_set(into@).contains(x) by {
                let k = choose|k: int| 0 <= k < j + 1 && node_items(#[trigger] nodes@[k]).contains(x);
                if k < j {
                    assert(before.contains(x));
                }
            }
        }
        j = j + 1;
    }
    assert(id_set(into@) =~= start + nodes_items(nodes@));
}

/// The ids of the item documents a zone build ships, ascending: those its
/// reachable loot tables, chargen options, quests and script trees name,
/// and those an overlay supplies outright.
pub fn wanted_item_ids(tree: &SourceTree, reachable: &Vec<LootTableDocument>, supplied: &Vec<String>) -> (out: Vec<String>)
    ensures
        ascending(out@),
        id_set(out@) == wanted_items(*tree, reachable@, supplied@),
{
    let mut out: Vec<String> = Vec::new();
    assert(id_set(out@) =~= Set::<Seq<char>>::empty());
    let mut i: usize = 0;
    while i < reachable.len()
        invariant
            i <= reachable@.len(),
            ascending(out@),
            id_set(out@) == Set::new(|x: Seq<char>| exists|k: int| 0 <= k < i && loot_items(#[trigger] reachable@[k].root).contains(x)),
        decreases reachable@.len() - i,
    {
        let ghost before = id_set(out@);
        collect_loot_items(&reachable[i].root, &mut out);
        assert(id_set(out@) =~= Set::new(|x: Seq<char>| exists|k: int| 0 <= k < i + 1 && loot_items(#[trigger] reachable@[k].root).contains(x))) by {
            assert forall|x: Seq<char>| (exists|k: int| 0 <= k < i + 1 && loot_items(#[trigger] reachable@[k].root).contains(x))
                implies id_set(out@).contains(x) by {
                let k = choose|k: int| 0 <= k < i + 1 && loot_items(#[trigger] reachable@[k].root).contains(x);
                if k < i {
                    assert(before.contains(x));
                }
            }
        }
        i = i + 1;
    }
    let ghost s1 = id_set(out@);
    assert(s1 == table_items(reachable@));
    let opts = &tree.chargen_options;
    let mut i: usize = 0;
    while i < opts.len()
        invariant
            i <= opts@.len(),
            ascending(out@),
            id_set(out@) == s1 + Set::new(|x: Seq<char>| exists|k: int| 0 <= k < i && loadout_of(#[trigger] opts@[k]).contains(x)),
        decreases opts@.len() - i,
    {
        let ghost before = id_set(out@);
        let option = &opts[i];
        let mut j: usize = 0;
        while j < option.starting_loadout.len()
            invariant
                j <= option.starting_loadout@.len(),
                ascending(out@),
                id_set(out@) == before + Set::new(|x: Seq<char>| exists|m: int| 0 <= m < j && (#[trigger] option.starting_loadout@[m]).item_id@ == x),
            decreases option.starting_loadout@.len() - j,
        {
            let ghost inner = id_set(out@);
            insert_id(&mut out, option.starting_loadout[j].item_id.as_str());
            assert(id_set(out@) =~= before + Set::new(|x: Seq<char>| exists|m: int| 0 <= m < j + 1 && (#[trigger] option.starting_loadout@[m]).item_id@ == x)) by {
                assert forall|x: Seq<char>| (exists|m: int| 0 <= m < j + 1 && (#[trigger] option.starting_loadout@[m]).item_id@ == x)
                    implies id_set(out@).contains(x) by {
                    let m = choose|m: int| 0 <= m < j + 1 && (#[trigger] option.starting_loadout@[m]).item_id@ == x;
                    if m < j {
                        assert(inner.contains(x));
                    }
                }
            }
            j = j + 1;
        }
        assert(id_set(out@) =~= before + loadout_of(opts@[i as int]));
        assert(id_set(out@) =~= s1 + Set::new(|x: Seq<char>| exists|k: int| 0 <= k < i + 1 && loadout_of(#[trigger] opts@[k]).contains(x))) by {
            assert forall|x: Seq<char>| (exists|k: int| 0 <= k < i + 1 && loadout_of(#[trigger] opts@[k]).contains(x))
                implies id_set(out@).contains(x) by {
                let k = choose|k: int| 0 <= k < i + 1 && loadout_of(#[trigger] opts@[k]).contains(x);
                if k < i {
                    assert(before.contains(x));
                }
            }
        }
        i = i + 1;
    }
    let ghost s2 = id_set(out@);
    assert(s2 =~= s1 + loadout_items(tree.chargen_options@));
    let quests = &tree.quests;
    let mut i: usize = 0;
    while i < quests.len()
        invariant
            i <= quests@.len(),
            ascending(out@),
            id_set(out@) == s2 + Set::new(|x: Seq<char>| exists|k: int| 0 <= k < i && quest_items_of(#[trigger] quests@[k]).contains(x)),
        decreases quests@.len() - i,
    {
        let ghost before = id_set(out@);
        add_quest(&quests[i], &mut out);
        assert(id_set(out@) =~= s2 + Set::new(|x: Seq<char>| exists|k: int| 0 <= k < i + 1 && quest_items_of(#[trigger] quests@[k]).contains(x))) by {
            assert forall|x: Seq<char>| (exists|k: int| 0 <= k < i + 1 && quest_items_of(#[trigger] quests@[k]).contains(x))
                implies id_set(out@).contains(x) by {
                let k = choose|k: int| 0 <= k < i + 1 && quest_items_of(#[trigger] quests@[k]).contains(x);
                if k < i {
                    assert(before.contains(x));
                }
            }
        }
        i = i + 1;
    }
    let ghost s3 = id_set(out@);
    assert(s3 =~= s2 + quest_items(tree.quests@));
    let scripts = &tree.quest_scripts;
    let mut i: usize = 0;
    while i < scripts.len()
        invariant
            i <= scripts@.len(),
            ascending(out@),
            id_set(out@) == s3 + Set::new(|x: Seq<char>| exists|k: int| 0 <= k < i
                && (nodes_items((#[trigger] scripts@[k]).start_impacts@).contains(x) || nodes_items(scripts@[k].trigger_agents@).contains(x))),
        decreases scripts@.len() - i,
    {
        let ghost before = id_set(out@);
        add_nodes_items(&scripts[i].start_impacts, &mut out);
        add_nodes_items(&scripts[i].trigger_agents, &mut out);
        assert(id_set(out@) =~= s3 + Set::new(|x: Seq<char>| exists|k: int| 0 <= k < i + 1
            && (nodes_items((#[trigger] scripts@[k]).start_impacts@).contains(x) || nodes_items(scripts@[k].trigger_agents@).contains(x)))) by {
            assert forall|x: Seq<char>| (exists|k: int| 0 <= k < i + 1
                && (nodes_items((#[trigger] scripts@[k]).start_impacts@).contains(x) || nodes_items(scripts@[k].trigger_agents@).contains(x)))
                implies id_set(out@).contains(x) by {
                let k = choose|k: int| 0 <= k < i + 1
                    && (nodes_items((#[trigger] scripts@[k]).start_impacts@).contains(x) || nodes_items(scripts@[k].trigger_agents@).contains(x));
                if k < i {
                    assert(before.contains(x));
                }
            }
        }
        i = i + 1;
    }
    let ghost s4 = id_set(out@);
    let triggers = &tree.script_triggers;
    let mut i: usize = 0;
    while i < triggers.len()
        invariant
            i <= triggers@.len(),
            ascending(out@),
            id_set(out@) == s4 + Set::new(|x: Seq<char>| exists|k: int| 0 <= k < i && node_items((#[trigger] triggers@[k]).root).contains(x)),
        decreases triggers@.len() - i,
    {
        let ghost before = id_set(out@);
        add_node_items(&triggers[i].root, &mut out);
        assert(id_set(out@) =~= s4 + Set::new(|x: Seq<char>| exists|k: int| 0 <= k < i + 1 && node_items((#[trigger] triggers@[k]).root).contains(x))) by {
            assert forall|x: Seq<char>| (exists|k: int| 0 <= k < i + 1 && node_items((#[trigger] triggers@[k]).root).contains(x))
                implies id_set(out@).contains(x) by {
                let k = choose|k: int| 0 <= k < i + 1 && node_items((#[trigger] triggers@[k]).root).contains(x);
                if k < i {
                    assert(before.contains(x));
                }
            }
        }
        i = i + 1;
    }
    let ghost s5 = id_set(out@);
    assert(s5 =~= s3 + script_items(*tree));
    let mut i: usize = 0;
    while i < supplied.len()
        invariant
            i <= supplied@.len(),
            ascending(out@),
            id_set(out@) == s5 + Set::new(|x: Seq<char>| exists|k: int| 0 <= k < i && (#[trigger] supplied@[k])@ == x),
        decreases supplied@.len() - i,
    {
        let ghost before = id_set(out@);
        insert_id(&mut out, supplied[i].as_str());
        assert(id_set(out@) =~= s5 + Set::new(|x: Seq<char>| exists|k: int| 0 <= k < i + 1 && (#[trigger] supplied@[k])@ == x)) by {
            assert forall|x: Seq<char>| (exists|k: int| 0 <= k < i + 1 && (#[trigger] supplied@[k])@ == x)
                implies id_set(out@).contains(x) by {
                let k = choose|k: int| 0 <= k < i + 1 && (#[trigger] supplied@[k])@ == x;
                if k < i {
                    assert(before.contains(x));
                }
            }
        }
        i = i + 1;
    }
    assert(id_set(out@) =~= wanted_items(*tree, reachable@, supplied@));
    out
}

// ----- where the wanted items come from ---------------------------------------------

/// Where a wanted item document is read from: the loader's merged value, or
/// the file the item index names, relative to the ruleset.
#[derive(Debug, Clone, PartialEq, Eq)]
pub enum ItemSource {
    Merged(String),
    Indexed { id: String, relative: String },
}

pub open spec fn source_view(s: ItemSource) -> (Seq<char>, Option<Seq<char>>) {
    match s {
        ItemSource::Merged(id) => (id@, None),
        ItemSource::Indexed { id, relative } => (id@, Some(relative@)),
    }
}

/// The path the index gives `id`, its first entry for it.
pub open spec fn index_path(index: Seq<(String, String)>, id: Seq<char>) -> Option<Seq<char>>
    decreases index.len(),
{
    if index.len() == 0 {
        None
    } else if index[0].0@ == id {
        Some(index[0].1@)
    } else {
        index_path(index.drop_first(), id)
    }
}

/// The sources of the wanted items, in the order wanted: a merged value
/// first, else the indexed file; an id neither has is left to the reference
/// check, which names whoever asked for it.
pub open spec fn item_sources(wanted: Seq<String>, merged: Set<Seq<char>>, index: Seq<(String, String)>)
    -> Seq<(Seq<char>, Option<Seq<char>>)>
    decreases wanted.len(),
{
    if wanted.len() == 0 {
        Seq::empty()
    } else {
        let rest = item_sources(wanted.drop_last(), merged, index);
        let w = wanted.last()@;
        if merged.contains(w) {
            rest.push((w, None))
        } else {
            match index_path(index, w) {
                Some(r) => rest.push((w, Some(r))),
                None => rest,
            }
        }
    }
}

/// A zone build loads no item document that nothing wanted: every source
/// it selects names a wanted id.
pub proof fn lemma_only_wanted_items_load(wanted: Seq<String>, merged: Set<Seq<char>>, index: Seq<(String, String)>)
    ensures
        forall|k: int| 0 <= k < item_sources(wanted, merged, index).len()
            ==> id_set(wanted).contains(#[trigger] item_sources(wanted, merged, index)[k].0),
    decreases wanted.len(),
{
    if wanted.len() > 0 {
        let rest = wanted.drop_last();
        lemma_only_wanted_items_load(rest, merged, index);
        let r = item_sources(rest, merged, index);
        let all = item_sources(wanted, merged, index);
        assert forall|k: int| 0 <= k < all.len() implies id_set(wanted).contains(#[trigger] all[k].0) by {
            if k < r.len() {
                assert(all[k] == r[k]);
                assert(id_set(rest).contains(r[k].0));
                let i = choose|i: int| 0 <= i < rest.len() && rest[i]@ == r[k].0;
                assert(wanted[i] == rest[i]);
            } else {
                assert(all[k].0 == wanted[wanted.len() - 1]@);
            }
        }
    }
}

fn index_lookup(index: &Vec<(String, String)>, id: &str) -> (r: Option<String>)
    ensures
        opt_text_of(r) == index_path(index@, id@),
{
    let x = chars_of(id);
    let mut i: usize = 0;
    assert(index@.skip(0) =~= index@);
    while i < index.len()
        invariant
            i <= index@.len(),
            x@ == id@,
            index_path(index@.skip(i as int), id@) == index_path(index@, id@),
        decreases index@.len() - i,
    {
        assert(index@.skip(i as int)[0] == index@[i as int]);
        assert(index@.skip(i as int).drop_first() =~= index@.skip(i + 1));
        if seq_eq(chars_of(index[i].0.as_str()).as_slice(), x.as_slice()) {
            return Some(string_of(chars_of(index[i].1.as_str()).as_slice()));
        }
        i = i + 1;
    }
    None
}

pub open spec fn opt_text_of(o: Option<String>) -> Option<Seq<char>> {
    match o {
        Some(s) => Some(s@),
        None => None,
    }
}

/// The item documents a zone build loads, and nothing else: for each wanted
/// id in order, its merged value when the loader holds one, else the file
/// the index names.
pub fn select_item_sources(wanted: &Vec<String>, merged: &Vec<String>, index: &Vec<(String, String)>)
    -> (out: Vec<ItemSource>)
    ensures
        out@.map_values(|s: ItemSource| source_view(s)) == item_sources(wanted@, id_set(merged@), index@),
{
    let mut out: Vec<ItemSource> = Vec::new();
    let mut i: usize = 0;
    assert(wanted@.take(0) =~= Seq::<String>::empty());
    assert(out@.map_values(|s: ItemSource| source_view(s)) =~= Seq::<(Seq<char>, Option<Seq<char>>)>::empty());
    while i < wanted.len()
        invariant
            i <= wanted@.len(),
            out@.map_values(|s: ItemSource| source_view(s)) == item_sources(wanted@.take(i as int), id_set(merged@), index@),
        decreases wanted@.len() - i,
    {
        assert(wanted@.take(i + 1).drop_last() =~= wanted@.take(i as int));
        assert(wanted@.take(i + 1).last() == wanted@[i as int]);
        let ghost before = out@.map_values(|s: ItemSource| source_view(s));
        let id = wanted[i].as_str();
        if contains_id(merged, id) {
            out.push(ItemSource::Merged(string_of(chars_of(id).as_slice())));
            assert(out@.map_values(|s: ItemSource| source_view(s)) =~= before.push((id@, None)));
        } else {
            match index_lookup(index, id) {
                Some(relative) => {
                    let ghost rv = relative@;
                    out.push(ItemSource::Indexed { id: string_of(chars_of(id).as_slice()), relative });
                    assert(out@.map_values(|s: ItemSource| source_view(s)) =~= before.push((id@, Some(rv))));
                },
                None => {},
            }
        }
        i = i + 1;
    }
    assert(wanted@.take(wanted@.len() as int) =~= wanted@);
    out
}

} // verus!
