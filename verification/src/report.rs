//! The build report: everything about a build that must not affect its
//! digest, including the per-tier census of script nodes.

use vstd::prelude::*;
use crate::text::{chars_of, string_of, eq_str, seq_eq, copy_chars, push_str};
use crate::scan::{lex_le, lex_le_exec, lemma_lex_total, lemma_lex_transitive, lemma_lex_antisym, text_views};
use crate::overlay::{lex_lt, Conflict, CurationNote, conflict_text, note_views, conflict_views};
use crate::refs::{ReferenceReport, dangling_text, gaps_by_namespace, counts_match, count_views};
use crate::text::push_decimal;
use crate::source::{
    ScriptNodeDocument, ScriptFieldDocument, ScriptValueDocument, ScriptRefDocument, SourceTree,
    refs_of_node, ref_views, collect_script_refs, opt_view,
};

verus! {

// ----- tallies ----------------------------------------------------------------

/// Counts by key, keys strictly ascending, every count positive.
pub open spec fn tally_views(v: Seq<(String, usize)>) -> Seq<(Seq<char>, nat)> {
    v.map_values(|e: (String, usize)| (e.0@, e.1 as nat))
}

pub open spec fn tally_wf(t: Seq<(Seq<char>, nat)>) -> bool {
    &&& forall|a: int, b: int| 0 <= a < b < t.len() ==> lex_lt(#[trigger] t[a].0, #[trigger] t[b].0)
    &&& forall|a: int| 0 <= a < t.len() ==> (#[trigger] t[a]).1 > 0
}

/// The count a tally holds for `k`; zero when absent.
pub open spec fn count_in(t: Seq<(Seq<char>, nat)>, k: Seq<char>) -> nat {
    if exists|i: int| 0 <= i < t.len() && (#[trigger] t[i]).0 == k {
        t[choose|i: int| 0 <= i < t.len() && (#[trigger] t[i]).0 == k].1
    } else {
        0
    }
}

proof fn lemma_count_at(t: Seq<(Seq<char>, nat)>, i: int)
    requires
        tally_wf(t),
        0 <= i < t.len(),
    ensures
        count_in(t, t[i].0) == t[i].1,
{
    let c = choose|k: int| 0 <= k < t.len() && (#[trigger] t[k]).0 == t[i].0;
    if c < i {
        assert(lex_lt(t[c].0, t[i].0));
    } else if i < c {
        assert(lex_lt(t[i].0, t[c].0));
    }
}

proof fn lemma_lt_trans(a: Seq<char>, b: Seq<char>, c: Seq<char>)
    requires
        lex_lt(a, b),
        lex_lt(b, c),
    ensures
        lex_lt(a, c),
{
    lemma_lex_transitive(a, b, c);
    if a == c {
        lemma_lex_antisym(a, b);
    }
}

/// Adds one to the count of `key`.
pub fn tally_add(t: &mut Vec<(String, usize)>, key: &[char], bound: usize)
    requires
        tally_wf(tally_views(old(t)@)),
        count_in(tally_views(old(t)@), key@) < bound,
    ensures
        tally_wf(tally_views(final(t)@)),
        forall|k: Seq<char>| #[trigger] count_in(tally_views(final(t)@), k)
            == count_in(tally_views(old(t)@), k) + if k == key@ { 1nat } else { 0nat },
{
    let ghost tv = tally_views(t@);
    let mut j: usize = 0;
    while j < t.len() && lex_le_exec(chars_of(t[j].0.as_str()).as_slice(), key) && !eq_str(key, t[j].0.as_str())
        invariant
            j <= t@.len(),
            tv == tally_views(t@),
            forall|a: int| 0 <= a < j ==> lex_lt(#[trigger] tv[a].0, key@),
        decreases t@.len() - j,
    {
        assert(tv[j as int].0 == t@[j as int].0@);
        j = j + 1;
    }
    if j < t.len() && eq_str(key, t[j].0.as_str()) {
        assert(tv[j as int].0 == key@);
        proof { lemma_count_at(tv, j as int); }
        let c = t[j].1;
        let k = copy_text(&t[j].0);
        t.set(j, (k, c + 1));
        proof {
            let nv = tally_views(t@);
            assert(nv =~= tv.update(j as int, (key@, (c + 1) as nat)));
            assert forall|a: int, b: int| 0 <= a < b < nv.len() implies lex_lt(#[trigger] nv[a].0, #[trigger] nv[b].0) by {
                assert(nv[a].0 == tv[a].0 && nv[b].0 == tv[b].0);
            }
            assert forall|k2: Seq<char>| #[trigger] count_in(nv, k2) == count_in(tv, k2) + if k2 == key@ { 1nat } else { 0nat } by {
                if exists|i: int| 0 <= i < tv.len() && (#[trigger] tv[i]).0 == k2 {
                    let i = choose|i: int| 0 <= i < tv.len() && (#[trigger] tv[i]).0 == k2;
                    lemma_count_at(tv, i);
                    assert(nv[i].0 == k2);
                    lemma_count_at(nv, i);
                } else {
                    assert forall|i: int| 0 <= i < nv.len() implies (#[trigger] nv[i]).0 != k2 by {
                        assert(nv[i].0 == tv[i].0);
                    }
                }
            }
        }
    } else {
        proof {
            if j < tv.len() {
                assert(tv[j as int].0 == t@[j as int].0@);
                lemma_lex_total(tv[j as int].0, key@);
            }
        }
        let entry = (string_of(key), 1usize);
        t.insert(j, entry);
        proof {
            let nv = tally_views(t@);
            assert(nv =~= tv.insert(j as int, (key@, 1nat)));
            assert forall|a: int, b: int| 0 <= a < b < nv.len() implies lex_lt(#[trigger] nv[a].0, #[trigger] nv[b].0) by {
                if b < j {
                } else if b == j {
                    assert(nv[a] == tv[a]);
                } else if a == j {
                    assert(nv[b] == tv[b - 1]);
                    if b - 1 > j {
                        lemma_lt_trans(key@, tv[j as int].0, tv[b - 1].0);
                    }
                } else if a < j {
                    assert(nv[a] == tv[a] && nv[b] == tv[b - 1]);
                } else {
                    assert(nv[a] == tv[a - 1] && nv[b] == tv[b - 1]);
                }
            }
            assert forall|a: int| 0 <= a < nv.len() implies (#[trigger] nv[a]).1 > 0 by {
                if a < j {
                    assert(nv[a] == tv[a]);
                } else if a > j {
                    assert(nv[a] == tv[a - 1]);
                }
            }
            assert(forall|i: int| 0 <= i < tv.len() ==> (#[trigger] tv[i]).0 != key@) by {
                assert forall|i: int| 0 <= i < tv.len() implies (#[trigger] tv[i]).0 != key@ by {
                    if i >= j as int {
                        if i > j {
                            lemma_lt_trans(key@, tv[j as int].0, tv[i].0);
                        }
                    }
                }
            }
            assert forall|k2: Seq<char>| #[trigger] count_in(nv, k2) == count_in(tv, k2) + if k2 == key@ { 1nat } else { 0nat } by {
                if k2 == key@ {
                    assert(nv[j as int].0 == k2);
                    lemma_count_at(nv, j as int);
                } else {
                    if exists|i: int| 0 <= i < tv.len() && (#[trigger] tv[i]).0 == k2 {
                        let i = choose|i: int| 0 <= i < tv.len() && (#[trigger] tv[i]).0 == k2;
                        lemma_count_at(tv, i);
                        if i < j {
                            assert(nv[i] == tv[i]);
                            lemma_count_at(nv, i);
                        } else {
                            assert(nv[i + 1] == tv[i]);
                            lemma_count_at(nv, i + 1);
                        }
                    } else {
                        assert forall|i: int| 0 <= i < nv.len() implies (#[trigger] nv[i]).0 != k2 by {
                            if i < j {
                                assert(nv[i] == tv[i]);
                            } else if i > j {
                                assert(nv[i] == tv[i - 1]);
                            }
                        }
                    }
                }
            }
        }
    }
}

fn copy_text(s: &String) -> (out: String)
    ensures
        out@ == s@,
{
    string_of(chars_of(s.as_str()).as_slice())
}

// ----- the script census ----------------------------------------------------------

/// Which tier bucket a node's tier falls in: anything not implemented or
/// inert counts as refused.
pub open spec fn tier_bucket(tier: Seq<char>) -> nat {
    if tier == "implemented"@ { 0 } else if tier == "inert-and-counted"@ { 1 } else { 2 }
}

/// `(tier, opcode)` of every node of a tree in visiting order: the node, then
/// each field's nested node and list entries.
pub open spec fn nodes_of_node(n: ScriptNodeDocument) -> Seq<(Seq<char>, Seq<char>)>
    decreases n,
{
    seq![(n.tier@, n.opcode@)] + nodes_of_fields(n.fields@)
}

pub open spec fn nodes_of_fields(fs: Seq<ScriptFieldDocument>) -> Seq<(Seq<char>, Seq<char>)>
    decreases fs,
{
    if fs.len() == 0 { Seq::empty() } else { nodes_of_fields(fs.drop_last()) + nodes_of_value(fs.last().value) }
}

pub open spec fn nodes_of_value(v: ScriptValueDocument) -> Seq<(Seq<char>, Seq<char>)>
    decreases v,
{
    (match v.node {
        Some(b) => nodes_of_node(*b),
        None => Seq::empty(),
    }) + (match v.list {
        Some(l) => nodes_of_values(l@),
        None => Seq::empty(),
    })
}

pub open spec fn nodes_of_values(vs: Seq<ScriptValueDocument>) -> Seq<(Seq<char>, Seq<char>)>
    decreases vs,
{
    if vs.len() == 0 { Seq::empty() } else { nodes_of_values(vs.drop_last()) + nodes_of_value(vs.last()) }
}

pub open spec fn node_part(v: ScriptValueDocument) -> Seq<(Seq<char>, Seq<char>)> {
    match v.node {
        Some(b) => nodes_of_node(*b),
        None => Seq::empty(),
    }
}

pub open spec fn list_part(v: ScriptValueDocument) -> Seq<(Seq<char>, Seq<char>)> {
    match v.list {
        Some(l) => nodes_of_values(l@),
        None => Seq::empty(),
    }
}

/// How many of `ns` fall in tier bucket `b` with opcode `o`.
pub open spec fn tally_of(ns: Seq<(Seq<char>, Seq<char>)>, b: nat, o: Seq<char>) -> nat
    decreases ns.len(),
{
    if ns.len() == 0 {
        0
    } else {
        tally_of(ns.drop_last(), b, o) + if tier_bucket(ns.last().0) == b && ns.last().1 == o { 1nat } else { 0nat }
    }
}

proof fn lemma_tally_concat(a: Seq<(Seq<char>, Seq<char>)>, c: Seq<(Seq<char>, Seq<char>)>, b: nat, o: Seq<char>)
    ensures
        tally_of(a + c, b, o) == tally_of(a, b, o) + tally_of(c, b, o),
    decreases c.len(),
{
    if c.len() > 0 {
        lemma_tally_concat(a, c.drop_last(), b, o);
        assert((a + c).drop_last() =~= a + c.drop_last());
    } else {
        assert(a + c =~= a);
    }
}

proof fn lemma_tally_bound(ns: Seq<(Seq<char>, Seq<char>)>, o: Seq<char>)
    ensures
        tally_of(ns, 0, o) + tally_of(ns, 1, o) + tally_of(ns, 2, o) <= ns.len(),
    decreases ns.len(),
{
    if ns.len() > 0 {
        lemma_tally_bound(ns.drop_last(), o);
    }
}

/// Per-tier node counts over every script row in the pack, and over the
/// rows reachable from quest roots.
#[derive(Debug)]
pub struct ScriptCensusReport {
    pub quest_scripts: usize,
    pub script_triggers: usize,
    pub nodes: usize,
    /// Nodes per opcode, by tier.
    pub implemented: Vec<(String, usize)>,
    pub inert_and_counted: Vec<(String, usize)>,
    pub refused: Vec<(String, usize)>,
    /// Trigger rows reached from quest roots by following trigger references.
    pub reachable_script_triggers: usize,
    pub reachable_nodes: usize,
    pub reachable_implemented: Vec<(String, usize)>,
    pub reachable_inert_and_counted: Vec<(String, usize)>,
    pub reachable_refused: Vec<(String, usize)>,
}

impl ScriptCensusReport {
    pub open spec fn bucket(&self, reachable: bool, b: nat) -> Seq<(Seq<char>, nat)> {
        if !reachable {
            if b == 0 { tally_views(self.implemented@) } else if b == 1 { tally_views(self.inert_and_counted@) } else { tally_views(self.refused@) }
        } else {
            if b == 0 { tally_views(self.reachable_implemented@) } else if b == 1 { tally_views(self.reachable_inert_and_counted@) } else { tally_views(self.reachable_refused@) }
        }
    }

    pub open spec fn other_bucket(&self, reachable: bool, b: nat) -> Seq<(Seq<char>, nat)> {
        self.bucket(!reachable, b)
    }

    pub open spec fn node_count(&self, reachable: bool) -> nat {
        if reachable { self.reachable_nodes as nat } else { self.nodes as nat }
    }

    /// The tallies are well formed and each opcode's three counts together
    /// never exceed the node count.
    pub open spec fn wf_side(&self, reachable: bool) -> bool {
        &&& tally_wf(self.bucket(reachable, 0))
        &&& tally_wf(self.bucket(reachable, 1))
        &&& tally_wf(self.bucket(reachable, 2))
        &&& forall|k: Seq<char>| count_in(self.bucket(reachable, 0), k) + count_in(self.bucket(reachable, 1), k)
            + count_in(self.bucket(reachable, 2), k) <= self.node_count(reachable)
    }

    /// Adds one node with opcode `op` to bucket `b` of one side.
    fn add_to(&mut self, reachable: bool, b: u8, op: &[char])
        requires
            old(self).wf_side(reachable),
            b < 3,
            old(self).node_count(reachable) < usize::MAX,
        ensures
            final(self).wf_side(reachable),
            final(self).wf_side(!reachable) == old(self).wf_side(!reachable),
            final(self).node_count(reachable) == old(self).node_count(reachable) + 1,
            final(self).node_count(!reachable) == old(self).node_count(!reachable),
            forall|b2: nat, k: Seq<char>| b2 < 3 ==> #[trigger] count_in(final(self).bucket(reachable, b2), k)
                == count_in(old(self).bucket(reachable, b2), k) + if b2 == b as nat && k == op@ { 1nat } else { 0nat },
            forall|b2: nat| b2 < 3 ==> #[trigger] final(self).other_bucket(reachable, b2) == old(self).other_bucket(reachable, b2),
            final(self).quest_scripts == old(self).quest_scripts,
            final(self).script_triggers == old(self).script_triggers,
            final(self).reachable_script_triggers == old(self).reachable_script_triggers,
    {
        let ghost s0 = *self;
        proof {
            assert(tally_wf(s0.bucket(reachable, 0)));
            assert(tally_wf(s0.bucket(reachable, 1)));
            assert(tally_wf(s0.bucket(reachable, 2)));
            assert(count_in(s0.bucket(reachable, 0), op@) + count_in(s0.bucket(reachable, 1), op@)
                + count_in(s0.bucket(reachable, 2), op@) <= s0.node_count(reachable));
        }
        if reachable {
            self.reachable_nodes = self.reachable_nodes + 1;
            if b == 0 {
                tally_add(&mut self.reachable_implemented, op, usize::MAX);
            } else if b == 1 {
                tally_add(&mut self.reachable_inert_and_counted, op, usize::MAX);
            } else {
                tally_add(&mut self.reachable_refused, op, usize::MAX);
            }
        } else {
            self.nodes = self.nodes + 1;
            if b == 0 {
                tally_add(&mut self.implemented, op, usize::MAX);
            } else if b == 1 {
                tally_add(&mut self.inert_and_counted, op, usize::MAX);
            } else {
                tally_add(&mut self.refused, op, usize::MAX);
            }
        }
        proof {
            assert forall|b2: nat, k: Seq<char>| b2 < 3 implies #[trigger] count_in(self.bucket(reachable, b2), k)
                == count_in(s0.bucket(reachable, b2), k) + if b2 == b as nat && k == op@ { 1nat } else { 0nat } by {
                if b2 == 0 {
                    assert(count_in(self.bucket(reachable, 0), k) == count_in(s0.bucket(reachable, 0), k) + if b == 0 && k == op@ { 1nat } else { 0nat });
                } else if b2 == 1 {
                    assert(count_in(self.bucket(reachable, 1), k) == count_in(s0.bucket(reachable, 1), k) + if b == 1 && k == op@ { 1nat } else { 0nat });
                } else {
                    assert(count_in(self.bucket(reachable, 2), k) == count_in(s0.bucket(reachable, 2), k) + if b == 2 && k == op@ { 1nat } else { 0nat });
                }
            }
            assert forall|k: Seq<char>| count_in(self.bucket(reachable, 0), k) + count_in(self.bucket(reachable, 1), k)
                + count_in(self.bucket(reachable, 2), k) <= self.node_count(reachable) by {
                assert(count_in(s0.bucket(reachable, 0), k) + count_in(s0.bucket(reachable, 1), k)
                    + count_in(s0.bucket(reachable, 2), k) <= s0.node_count(reachable));
            }
            assert forall|b2: nat| b2 < 3 implies #[trigger] self.other_bucket(reachable, b2) == s0.other_bucket(reachable, b2) by {}
            assert(self.wf_side(!reachable) == s0.wf_side(!reachable)) by {
                assert(self.node_count(!reachable) == s0.node_count(!reachable));
                assert(self.other_bucket(reachable, 0) == s0.other_bucket(reachable, 0));
                assert(self.other_bucket(reachable, 1) == s0.other_bucket(reachable, 1));
                assert(self.other_bucket(reachable, 2) == s0.other_bucket(reachable, 2));
            }
        }
    }

    /// Counts `node` and every node nested in its fields, on one side.
    fn tally_node(&mut self, node: &ScriptNodeDocument, reachable: bool)
        requires
            old(self).wf_side(reachable),
            old(self).node_count(reachable) + nodes_of_node(*node).len() <= usize::MAX,
        ensures
            final(self).wf_side(reachable),
            final(self).wf_side(!reachable) == old(self).wf_side(!reachable),
            final(self).node_count(reachable) == old(self).node_count(reachable) + nodes_of_node(*node).len(),
            final(self).node_count(!reachable) == old(self).node_count(!reachable),
            forall|b: nat, k: Seq<char>| b < 3 ==> #[trigger] count_in(final(self).bucket(reachable, b), k)
                == count_in(old(self).bucket(reachable, b), k) + tally_of(nodes_of_node(*node), b, k),
            forall|b: nat| b < 3 ==> #[trigger] final(self).other_bucket(reachable, b) == old(self).other_bucket(reachable, b),
            final(self).quest_scripts == old(self).quest_scripts,
            final(self).script_triggers == old(self).script_triggers,
            final(self).reachable_script_triggers == old(self).reachable_script_triggers,
        decreases node, 2nat,
    {
        let ghost s0 = *self;
        let op = chars_of(node.opcode.as_str());
        let tier = chars_of(node.tier.as_str());
        let b: u8 = if eq_str(tier.as_slice(), "implemented") {
            0
        } else if eq_str(tier.as_slice(), "inert-and-counted") {
            1
        } else {
            2
        };
        assert(b as nat == tier_bucket(node.tier@));
        self.add_to(reachable, b, op.as_slice());
        proof {
            let one = seq![(node.tier@, node.opcode@)];
            assert(one.drop_last() =~= Seq::<(Seq<char>, Seq<char>)>::empty());
            assert forall|b2: nat, k: Seq<char>| tally_of(one, b2, k) == if b2 == b as nat && k == op@ { 1nat } else { 0nat } by {
                assert(tally_of(Seq::<(Seq<char>, Seq<char>)>::empty(), b2, k) == 0);
            }
            assert forall|b2: nat, k: Seq<char>| b2 < 3 implies #[trigger] count_in(self.bucket(reachable, b2), k)
                == count_in(s0.bucket(reachable, b2), k) + tally_of(one, b2, k) by {
                assert(count_in(self.bucket(reachable, b2), k) == count_in(s0.bucket(reachable, b2), k)
                    + if b2 == b as nat && k == op@ { 1nat } else { 0nat });
            }
        }
        let ghost s1 = *self;
        self.tally_fields(&node.fields, reachable);
        proof {
            let head = seq![(node.tier@, node.opcode@)];
            assert(nodes_of_node(*node) == head + nodes_of_fields(node.fields@));
            assert forall|b: nat, k: Seq<char>| b < 3 implies #[trigger] count_in(self.bucket(reachable, b), k)
                == count_in(s0.bucket(reachable, b), k) + tally_of(nodes_of_node(*node), b, k) by {
                lemma_tally_concat(head, nodes_of_fields(node.fields@), b, k);
            }
        }
    }

    fn tally_fields(&mut self, fields: &Vec<ScriptFieldDocument>, reachable: bool)
        requires
            old(self).wf_side(reachable),
            old(self).node_count(reachable) + nodes_of_fields(fields@).len() <= usize::MAX,
        ensures
            final(self).wf_side(reachable),
            final(self).wf_side(!reachable) == old(self).wf_side(!reachable),
            final(self).node_count(reachable) == old(self).node_count(reachable) + nodes_of_fields(fields@).len(),
            final(self).node_count(!reachable) == old(self).node_count(!reachable),
            forall|b: nat, k: Seq<char>| b < 3 ==> #[trigger] count_in(final(self).bucket(reachable, b), k)
                == count_in(old(self).bucket(reachable, b), k) + tally_of(nodes_of_fields(fields@), b, k),
            forall|b: nat| b < 3 ==> #[trigger] final(self).other_bucket(reachable, b) == old(self).other_bucket(reachable, b),
            final(self).quest_scripts == old(self).quest_scripts,
            final(self).script_triggers == old(self).script_triggers,
            final(self).reachable_script_triggers == old(self).reachable_script_triggers,
        decreases fields, 1nat,
    {
        let ghost s0 = *self;
        let ghost fv = fields@;
        let mut i: usize = 0;
        assert(fv.take(0) =~= Seq::<ScriptFieldDocument>::empty());
        while i < fields.len()
            invariant
                i <= fv.len(),
                fv == fields@,
                self.wf_side(reachable),
                self.wf_side(!reachable) == s0.wf_side(!reachable),
                s0.node_count(reachable) + nodes_of_fields(fv).len() <= usize::MAX,
                self.node_count(reachable) == s0.node_count(reachable) + nodes_of_fields(fv.take(i as int)).len(),
                self.node_count(!reachable) == s0.node_count(!reachable),
                forall|b: nat, k: Seq<char>| b < 3 ==> #[trigger] count_in(self.bucket(reachable, b), k)
                    == count_in(s0.bucket(reachable, b), k) + tally_of(nodes_of_fields(fv.take(i as int)), b, k),
                forall|b: nat| b < 3 ==> #[trigger] self.other_bucket(reachable, b) == s0.other_bucket(reachable, b),
                self.quest_scripts == s0.quest_scripts,
                self.script_triggers == s0.script_triggers,
                self.reachable_script_triggers == s0.reachable_script_triggers,
            decreases fv.len() - i,
        {
            assert(fv.take(i + 1).drop_last() =~= fv.take(i as int));
            assert(fv.take(i + 1).last() == fv[i as int]);
            proof {
                vstd::std_specs::vec::axiom_vec_index_decreases(*fields, i as int);
                lemma_prefix_len_fields(fv, i as int);
            }
            let ghost mid = *self;
            self.tally_value(&fields[i].value, reachable);
            proof {
                assert forall|b: nat, k: Seq<char>| b < 3 implies #[trigger] count_in(self.bucket(reachable, b), k)
                    == count_in(s0.bucket(reachable, b), k) + tally_of(nodes_of_fields(fv.take(i + 1)), b, k) by {
                    lemma_tally_concat(nodes_of_fields(fv.take(i as int)), nodes_of_value(fv[i as int].value), b, k);
                }
            }
            i = i + 1;
        }
        assert(fv.take(fv.len() as int) =~= fv);
    }

    fn tally_value(&mut self, value: &ScriptValueDocument, reachable: bool)
        requires
            old(self).wf_side(reachable),
            old(self).node_count(reachable) + nodes_of_value(*value).len() <= usize::MAX,
        ensures
            final(self).wf_side(reachable),
            final(self).wf_side(!reachable) == old(self).wf_side(!reachable),
            final(self).node_count(reachable) == old(self).node_count(reachable) + nodes_of_value(*value).len(),
            final(self).node_count(!reachable) == old(self).node_count(!reachable),
            forall|b: nat, k: Seq<char>| b < 3 ==> #[trigger] count_in(final(self).bucket(reachable, b), k)
                == count_in(old(self).bucket(reachable, b), k) + tally_of(nodes_of_value(*value), b, k),
            forall|b: nat| b < 3 ==> #[trigger] final(self).other_bucket(reachable, b) == old(self).other_bucket(reachable, b),
            final(self).quest_scripts == old(self).quest_scripts,
            final(self).script_triggers == old(self).script_triggers,
            final(self).reachable_script_triggers == old(self).reachable_script_triggers,
        decreases value, 0nat,
    {
        let ghost s0 = *self;
        let ghost first = node_part(*value);
        let ghost second = list_part(*value);
        assert(nodes_of_value(*value) == first + second);
        match &value.node {
            Some(b) => {
                self.tally_node(b, reachable);
            },
            None => {},
        }
        let ghost s1 = *self;
        match &value.list {
            Some(l) => {
                let ghost lv = l@;
                let mut i: usize = 0;
                assert(lv.take(0) =~= Seq::<ScriptValueDocument>::empty());
                while i < l.len()
                    invariant
                        i <= lv.len(),
                        lv == l@,
                        value.list == Some(*l),
                        second == nodes_of_values(lv),
                        self.wf_side(reachable),
                        self.wf_side(!reachable) == s0.wf_side(!reachable),
                        s1.node_count(reachable) + nodes_of_values(lv).len() <= usize::MAX,
                        self.node_count(reachable) == s1.node_count(reachable) + nodes_of_values(lv.take(i as int)).len(),
                        self.node_count(!reachable) == s0.node_count(!reachable),
                        forall|b: nat, k: Seq<char>| b < 3 ==> #[trigger] count_in(self.bucket(reachable, b), k)
                            == count_in(s1.bucket(reachable, b), k) + tally_of(nodes_of_values(lv.take(i as int)), b, k),
                        forall|b: nat| b < 3 ==> #[trigger] self.other_bucket(reachable, b) == s0.other_bucket(reachable, b),
                        self.quest_scripts == s0.quest_scripts,
                        self.script_triggers == s0.script_triggers,
                        self.reachable_script_triggers == s0.reachable_script_triggers,
                    decreases lv.len() - i,
                {
                    assert(lv.take(i + 1).drop_last() =~= lv.take(i as int));
                    assert(lv.take(i + 1).last() == lv[i as int]);
                    proof {
                        assert((*value).list->Some_0 == *l);
                        assert(decreases_to!(*value => *l));
                        vstd::std_specs::vec::axiom_vec_index_decreases(*l, i as int);
                        lemma_prefix_len_values(lv, i as int);
                    }
                    self.tally_value(&l[i], reachable);
                    proof {
                        assert forall|b: nat, k: Seq<char>| b < 3 implies #[trigger] count_in(self.bucket(reachable, b), k)
                            == count_in(s1.bucket(reachable, b), k) + tally_of(nodes_of_values(lv.take(i + 1)), b, k) by {
                            lemma_tally_concat(nodes_of_values(lv.take(i as int)), nodes_of_value(lv[i as int]), b, k);
                        }
                    }
                    i = i + 1;
                }
                assert(lv.take(lv.len() as int) =~= lv);
            },
            None => {},
        }
        proof {
            assert forall|b: nat, k: Seq<char>| b < 3 implies #[trigger] count_in(self.bucket(reachable, b), k)
                == count_in(s0.bucket(reachable, b), k) + tally_of(nodes_of_value(*value), b, k) by {
                lemma_tally_concat(first, second, b, k);
            }
        }
    }
}

proof fn lemma_prefix_len_fields(fs: Seq<ScriptFieldDocument>, i: int)
    requires
        0 <= i < fs.len(),
    ensures
        nodes_of_fields(fs.take(i)).len() + nodes_of_value(fs[i].value).len() <= nodes_of_fields(fs).len(),
    decreases fs.len(),
{
    if i < fs.len() - 1 {
        assert(fs.drop_last().take(i) =~= fs.take(i));
        assert(fs.drop_last()[i] == fs[i]);
        lemma_prefix_len_fields(fs.drop_last(), i);
    } else {
        assert(fs.drop_last() =~= fs.take(i));
    }
}

proof fn lemma_prefix_len_values(vs: Seq<ScriptValueDocument>, i: int)
    requires
        0 <= i < vs.len(),
    ensures
        nodes_of_values(vs.take(i)).len() + nodes_of_value(vs[i]).len() <= nodes_of_values(vs).len(),
    decreases vs.len(),
{
    if i < vs.len() - 1 {
        assert(vs.drop_last().take(i) =~= vs.take(i));
        assert(vs.drop_last()[i] == vs[i]);
        lemma_prefix_len_values(vs.drop_last(), i);
    } else {
        assert(vs.drop_last() =~= vs.take(i));
    }
}

// ----- trigger reachability ---------------------------------------------------------

/// The ids of the trigger references among `rs`, in order.
pub open spec fn trigger_ids(rs: Seq<(Seq<char>, Option<Seq<char>>, Option<Seq<char>>)>) -> Seq<Seq<char>>
    decreases rs.len(),
{
    if rs.len() == 0 {
        Seq::empty()
    } else {
        trigger_ids(rs.drop_last()) + if rs.last().1 == Some("trigger"@) { seq![rs.last().0] } else { Seq::empty() }
    }
}

/// Queues the id of every trigger reference a script tree makes.
fn enqueue_trigger_refs(node: &ScriptNodeDocument, queue: &mut Vec<String>)
    ensures
        text_views(final(queue)@) == text_views(old(queue)@) + trigger_ids(refs_of_node(*node)),
{
    let mut refs: Vec<ScriptRefDocument> = Vec::new();
    collect_script_refs(node, &mut refs);
    assert(ref_views(refs@) =~= Seq::empty() + refs_of_node(*node));
    let ghost rv = ref_views(refs@);
    let ghost start = text_views(queue@);
    let mut i: usize = 0;
    assert(rv.take(0) =~= Seq::<(Seq<char>, Option<Seq<char>>, Option<Seq<char>>)>::empty());
    assert(start + trigger_ids(rv.take(0)) =~= start);
    while i < refs.len()
        invariant
            i <= refs@.len(),
            rv == ref_views(refs@),
            start == text_views(old(queue)@),
            text_views(queue@) == start + trigger_ids(rv.take(i as int)),
        decreases refs@.len() - i,
    {
        assert(rv.take(i + 1).drop_last() =~= rv.take(i as int));
        assert(rv.take(i + 1).last() == rv[i as int]);
        let r = &refs[i];
        let is_trigger = match &r.row_type {
            Some(t) => eq_str(chars_of(t.as_str()).as_slice(), "trigger"),
            None => false,
        };
        assert(is_trigger == (rv[i as int].1 == Some("trigger"@)));
        let ghost before = text_views(queue@);
        if is_trigger {
            let id = copy_text(&r.id);
            queue.push(id);
            assert(text_views(queue@) =~= before.push(id@));
        }
        assert(text_views(queue@) =~= start + trigger_ids(rv.take(i + 1)));
        i = i + 1;
    }
    assert(rv.take(refs@.len() as int) =~= rv);
}

/// The last trigger document carrying `id`: later documents win, as in a map
/// built in document order.
pub open spec fn doc_for(docs: Seq<crate::source::ScriptTriggerDocument>, id: Seq<char>) -> Option<int>
    decreases docs.len(),
{
    if docs.len() == 0 {
        None
    } else if docs.last().id@ == id {
        Some(docs.len() - 1)
    } else {
        doc_for(docs.drop_last(), id)
    }
}

/// The roots of every quest script, in document order.
pub open spec fn quest_roots(qs: Seq<crate::source::QuestScriptDocument>) -> Seq<ScriptNodeDocument>
    decreases qs.len(),
{
    if qs.len() == 0 {
        Seq::empty()
    } else {
        quest_roots(qs.drop_last()) + qs.last().start_impacts@ + qs.last().trigger_agents@
    }
}

pub open spec fn roots_trigger_ids(roots: Seq<ScriptNodeDocument>) -> Seq<Seq<char>>
    decreases roots.len(),
{
    if roots.len() == 0 {
        Seq::empty()
    } else {
        roots_trigger_ids(roots.drop_last()) + trigger_ids(refs_of_node(roots.last()))
    }
}

pub open spec fn entry_ids(docs: Seq<crate::source::ScriptTriggerDocument>) -> Seq<Seq<char>>
    decreases docs.len(),
{
    if docs.len() == 0 {
        Seq::empty()
    } else {
        entry_ids(docs.drop_last()) + if docs.last().entrypoint { seq![docs.last().id@] } else { Seq::empty() }
    }
}

pub open spec fn doc_roots(docs: Seq<crate::source::ScriptTriggerDocument>) -> Seq<ScriptNodeDocument> {
    docs.map_values(|d: crate::source::ScriptTriggerDocument| d.root)
}

/// The census starts from map-attached triggers and from every trigger a
/// quest root names.
pub open spec fn seeds(t: SourceTree) -> Seq<Seq<char>> {
    entry_ids(t.script_triggers@) + roots_trigger_ids(quest_roots(t.quest_scripts@))
}

/// Whether the trigger document for `p` names trigger `x`.
pub open spec fn linked(t: SourceTree, p: Seq<char>, x: Seq<char>) -> bool {
    match doc_for(t.script_triggers@, p) {
        Some(i) => trigger_ids(refs_of_node(t.script_triggers@[i].root)).contains(x),
        None => false,
    }
}

/// Whether `x` is reached within `k` steps from the seeds.
pub open spec fn reached_within(t: SourceTree, x: Seq<char>, k: nat) -> bool
    decreases k,
{
    if k == 0 {
        seeds(t).contains(x)
    } else {
        reached_within(t, x, (k - 1) as nat) || exists|p: Seq<char>| reached_within(t, p, (k - 1) as nat) && #[trigger] linked(t, p, x)
    }
}

pub open spec fn is_reachable(t: SourceTree, x: Seq<char>) -> bool {
    exists|k: nat| reached_within(t, x, k)
}

/// Every seed trigger is reachable, and a trigger that a reachable trigger
/// names is reachable too.
pub proof fn lemma_reachability_closed(t: SourceTree, p: Seq<char>, x: Seq<char>)
    ensures
        seeds(t).contains(x) ==> is_reachable(t, x),
        is_reachable(t, p) && linked(t, p, x) ==> is_reachable(t, x),
{
    if seeds(t).contains(x) {
        assert(reached_within(t, x, 0));
    }
    if is_reachable(t, p) && linked(t, p, x) {
        let k = choose|k: nat| reached_within(t, p, k);
        assert(reached_within(t, x, k + 1));
    }
}

/// Every id the walk can ever queue.
pub open spec fn universe(t: SourceTree) -> Seq<Seq<char>> {
    seeds(t) + roots_trigger_ids(doc_roots(t.script_triggers@))
}

proof fn lemma_roots_ids_contain(roots: Seq<ScriptNodeDocument>, i: int, x: Seq<char>)
    requires
        0 <= i < roots.len(),
        trigger_ids(refs_of_node(roots[i])).contains(x),
    ensures
        roots_trigger_ids(roots).contains(x),
    decreases roots.len(),
{
    if i < roots.len() - 1 {
        assert(roots.drop_last()[i] == roots[i]);
        lemma_roots_ids_contain(roots.drop_last(), i, x);
        let a = roots_trigger_ids(roots.drop_last());
        let j = choose|j: int| 0 <= j < a.len() && a[j] == x;
        assert(roots_trigger_ids(roots)[j] == x);
    } else {
        let a = roots_trigger_ids(roots.drop_last());
        let b = trigger_ids(refs_of_node(roots.last()));
        let j = choose|j: int| 0 <= j < b.len() && b[j] == x;
        assert((a + b)[a.len() + j] == x);
    }
}

proof fn lemma_doc_for_range(docs: Seq<crate::source::ScriptTriggerDocument>, id: Seq<char>)
    ensures
        doc_for(docs, id) matches Some(i) ==> 0 <= i < docs.len() && docs[i].id@ == id,
        doc_for(docs, id) is None ==> forall|i: int| 0 <= i < docs.len() ==> (#[trigger] docs[i]).id@ != id,
    decreases docs.len(),
{
    if docs.len() > 0 && docs.last().id@ != id {
        lemma_doc_for_range(docs.drop_last(), id);
        if doc_for(docs, id) is None {
            assert forall|i: int| 0 <= i < docs.len() implies (#[trigger] docs[i]).id@ != id by {
                if i < docs.len() - 1 {
                    assert(docs.drop_last()[i] == docs[i]);
                }
            }
        }
    }
}

proof fn lemma_reached_monotone(t: SourceTree, x: Seq<char>, k: nat, m: nat)
    requires
        reached_within(t, x, k),
        k <= m,
    ensures
        reached_within(t, x, m),
    decreases m - k,
{
    if k < m {
        assert(reached_within(t, x, k + 1));
        lemma_reached_monotone(t, x, k + 1, m);
    }
}

/// Every id reached within `k` steps belongs to any set that holds the seeds
/// and is closed under trigger links.
proof fn lemma_closed_holds_reached(t: SourceTree, r: Seq<Seq<char>>, x: Seq<char>, k: nat)
    requires
        forall|y: Seq<char>| seeds(t).contains(y) ==> r.contains(y),
        forall|p: Seq<char>, y: Seq<char>| r.contains(p) && #[trigger] linked(t, p, y) ==> r.contains(y),
        reached_within(t, x, k),
    ensures
        r.contains(x),
    decreases k,
{
    if k > 0 {
        if reached_within(t, x, (k - 1) as nat) {
            lemma_closed_holds_reached(t, r, x, (k - 1) as nat);
        } else {
            let p = choose|p: Seq<char>| reached_within(t, p, (k - 1) as nat) && #[trigger] linked(t, p, x);
            lemma_closed_holds_reached(t, r, p, (k - 1) as nat);
        }
    }
}

fn holds_id(v: &Vec<String>, x: &[char], from: usize) -> (r: bool)
    requires
        from <= v@.len(),
    ensures
        r == text_views(v@).skip(from as int).contains(x@),
{
    let mut i = from;
    while i < v.len()
        invariant
            from <= i <= v@.len(),
            forall|k: int| from <= k < i ==> text_views(v@)[k] != x@,
        decreases v@.len() - i,
    {
        assert(text_views(v@)[i as int] == v@[i as int]@);
        if eq_str(x, v[i].as_str()) {
            assert(text_views(v@).skip(from as int)[i - from] == x@);
            return true;
        }
        i = i + 1;
    }
    assert forall|k: int| 0 <= k < text_views(v@).skip(from as int).len() implies text_views(v@).skip(from as int)[k] != x@ by {
        assert(text_views(v@).skip(from as int)[k] == text_views(v@)[k + from]);
    }
    false
}

fn find_doc(docs: &Vec<crate::source::ScriptTriggerDocument>, id: &[char]) -> (r: Option<usize>)
    ensures
        match r {
            Some(i) => doc_for(docs@, id@) == Some(i as int),
            None => doc_for(docs@, id@) is None,
        },
{
    let mut i = docs.len();
    assert(docs@.take(i as int) =~= docs@);
    while i > 0
        invariant
            i <= docs@.len(),
            doc_for(docs@.take(i as int), id@) == doc_for(docs@, id@),
        decreases i,
    {
        assert(docs@.take(i as int).last() == docs@[i - 1]);
        assert(docs@.take(i as int).drop_last() =~= docs@.take(i - 1));
        if eq_str(id, docs[i - 1].id.as_str()) {
            return Some(i - 1);
        }
        i = i - 1;
    }
    assert(docs@.take(0) =~= Seq::<crate::source::ScriptTriggerDocument>::empty());
    None
}

proof fn lemma_roots_ids_concat(a: Seq<ScriptNodeDocument>, b: Seq<ScriptNodeDocument>)
    ensures
        roots_trigger_ids(a + b) == roots_trigger_ids(a) + roots_trigger_ids(b),
    decreases b.len(),
{
    if b.len() == 0 {
        assert(a + b =~= a);
        assert(roots_trigger_ids(a) + roots_trigger_ids(b) =~= roots_trigger_ids(a));
    } else {
        lemma_roots_ids_concat(a, b.drop_last());
        assert((a + b).drop_last() =~= a + b.drop_last());
        assert((a + b).last() == b.last());
        assert(roots_trigger_ids(a + b) =~= roots_trigger_ids(a) + roots_trigger_ids(b));
    }
}

fn enqueue_roots(roots: &Vec<ScriptNodeDocument>, queue: &mut Vec<String>)
    ensures
        text_views(final(queue)@) == text_views(old(queue)@) + roots_trigger_ids(roots@),
{
    let ghost start = text_views(queue@);
    let mut i: usize = 0;
    assert(roots@.take(0) =~= Seq::<ScriptNodeDocument>::empty());
    assert(start + roots_trigger_ids(roots@.take(0)) =~= start);
    while i < roots.len()
        invariant
            i <= roots@.len(),
            start == text_views(old(queue)@),
            text_views(queue@) == start + roots_trigger_ids(roots@.take(i as int)),
        decreases roots@.len() - i,
    {
        assert(roots@.take(i + 1).drop_last() =~= roots@.take(i as int));
        assert(roots@.take(i + 1).last() == roots@[i as int]);
        enqueue_trigger_refs(&roots[i], queue);
        assert(text_views(queue@) =~= start + roots_trigger_ids(roots@.take(i + 1)));
        i = i + 1;
    }
    assert(roots@.take(roots@.len() as int) =~= roots@);
}

/// The seed queue: map-attached triggers, then every trigger the quest
/// roots name.
fn seed_queue(tree: &SourceTree) -> (queue: Vec<String>)
    ensures
        text_views(queue@) == seeds(*tree),
{
    let docs = &tree.script_triggers;
    let mut queue: Vec<String> = Vec::new();
    let mut i: usize = 0;
    assert(docs@.take(0) =~= Seq::<crate::source::ScriptTriggerDocument>::empty());
    assert(text_views(queue@) =~= Seq::<Seq<char>>::empty());
    while i < docs.len()
        invariant
            i <= docs@.len(),
            text_views(queue@) == entry_ids(docs@.take(i as int)),
        decreases docs@.len() - i,
    {
        assert(docs@.take(i + 1).drop_last() =~= docs@.take(i as int));
        assert(docs@.take(i + 1).last() == docs@[i as int]);
        let ghost before = text_views(queue@);
        if docs[i].entrypoint {
            let id = copy_text(&docs[i].id);
            queue.push(id);
            assert(text_views(queue@) =~= before.push(id@));
        }
        assert(text_views(queue@) =~= entry_ids(docs@.take(i + 1)));
        i = i + 1;
    }
    assert(docs@.take(docs@.len() as int) =~= docs@);
    let qs = &tree.quest_scripts;
    let ghost entries = text_views(queue@);
    let mut j: usize = 0;
    assert(qs@.take(0) =~= Seq::<crate::source::QuestScriptDocument>::empty());
    assert(entries + roots_trigger_ids(quest_roots(qs@.take(0))) =~= entries);
    while j < qs.len()
        invariant
            j <= qs@.len(),
            entries == entry_ids(tree.script_triggers@),
            text_views(queue@) == entries + roots_trigger_ids(quest_roots(qs@.take(j as int))),
        decreases qs@.len() - j,
    {
        assert(qs@.take(j + 1).drop_last() =~= qs@.take(j as int));
        assert(qs@.take(j + 1).last() == qs@[j as int]);
        let ghost prior = quest_roots(qs@.take(j as int));
        enqueue_roots(&qs[j].start_impacts, &mut queue);
        enqueue_roots(&qs[j].trigger_agents, &mut queue);
        proof {
            lemma_roots_ids_concat(prior, qs@[j as int].start_impacts@);
            lemma_roots_ids_concat(prior + qs@[j as int].start_impacts@, qs@[j as int].trigger_agents@);
        }
        assert(text_views(queue@) =~= entries + roots_trigger_ids(quest_roots(qs@.take(j + 1))));
        j = j + 1;
    }
    assert(qs@.take(qs@.len() as int) =~= qs@);
    queue
}

/// The trigger ids reached from the seeds by following trigger references,
/// each once: exactly the ids some chain of links reaches.
pub fn reachable_triggers(tree: &SourceTree) -> (reached: Vec<String>)
    ensures
        text_views(reached@).no_duplicates(),
        forall|x: Seq<char>| text_views(reached@).contains(x) <==> is_reachable(*tree, x),
{
    let ghost t = *tree;
    let ghost u = universe(t);
    let ghost uset = u.to_set();
    let mut queue = seed_queue(tree);
    let mut reached: Vec<String> = Vec::new();
    let mut head: usize = 0;
    proof {
        assert(text_views(reached@) =~= Seq::<Seq<char>>::empty());
        assert(text_views(queue@).skip(0) =~= text_views(queue@));
        assert forall|x: Seq<char>| text_views(queue@).skip(0).contains(x) implies is_reachable(t, x) by {
            assert(reached_within(t, x, 0));
        }
        assert forall|i: int| 0 <= i < text_views(queue@).len() implies u.contains(#[trigger] text_views(queue@)[i]) by {
            assert(u[i] == text_views(queue@)[i]);
        }
        vstd::seq_lib::seq_to_set_is_finite(u);
    }
    while head < queue.len()
        invariant
            t == *tree,
            u == universe(t),
            uset == u.to_set(),
            uset.finite(),
            head <= queue@.len(),
            text_views(reached@).no_duplicates(),
            forall|x: Seq<char>| text_views(reached@).contains(x) ==> u.contains(x),
            forall|i: int| 0 <= i < text_views(queue@).len() ==> u.contains(#[trigger] text_views(queue@)[i]),
            forall|x: Seq<char>| text_views(reached@).contains(x) || text_views(queue@).skip(head as int).contains(x)
                ==> is_reachable(t, x),
            forall|y: Seq<char>| seeds(t).contains(y) ==> text_views(reached@).contains(y) || text_views(queue@).skip(head as int).contains(y),
            forall|p: Seq<char>, y: Seq<char>| text_views(reached@).contains(p) && #[trigger] linked(t, p, y)
                ==> text_views(reached@).contains(y) || text_views(queue@).skip(head as int).contains(y),
        decreases uset.len() - reached@.len(), queue@.len() - head,
    {
        let ghost rq = text_views(reached@);
        let ghost qq = text_views(queue@);
        proof {
            rq.unique_seq_to_set();
            assert(rq.to_set().subset_of(uset));
            vstd::set_lib::lemma_len_subset(rq.to_set(), uset);
        }
        let x = chars_of(queue[head].as_str());
        assert(qq[head as int] == x@);
        assert(qq.skip(head as int) =~= seq![x@] + qq.skip(head + 1));
        assert(qq.skip(head as int)[0] == x@);
        assert(is_reachable(t, x@));
        let ghost rest = qq.skip(head + 1);
        let ghost pending = qq.skip(head as int);
        assert forall|z: Seq<char>| rest.contains(z) implies qq.skip(head as int).contains(z) by {
            let m = choose|m: int| 0 <= m < rest.len() && rest[m] == z;
            assert(qq.skip(head as int)[m + 1] == z);
        }
        head = head + 1;
        if holds_id(&reached, x.as_slice(), 0) {
            assert(rq.skip(0) =~= rq);
            continue;
        }
        assert(rq.skip(0) =~= rq);
        let ghost kx = choose|k: nat| reached_within(t, x@, k);
        assert(reached_within(t, x@, kx));
        reached.push(string_of(x.as_slice()));
        assert(text_views(reached@) =~= rq.push(x@));
        proof {
            assert(text_views(reached@).no_duplicates()) by {
                let nr = text_views(reached@);
                assert forall|a: int, b: int| 0 <= a < nr.len() && 0 <= b < nr.len() && a != b implies nr[a] != nr[b] by {
                    if a < rq.len() && b < rq.len() {
                        assert(nr[a] == rq[a] && nr[b] == rq[b]);
                    } else if a < rq.len() {
                        assert(nr[a] == rq[a]);
                    } else if b < rq.len() {
                        assert(nr[b] == rq[b]);
                    }
                }
            }
            assert(u.contains(x@));
            let nr = text_views(reached@);
            nr.unique_seq_to_set();
            assert(nr.to_set().subset_of(uset));
            vstd::set_lib::lemma_len_subset(nr.to_set(), uset);
        }
        match find_doc(&tree.script_triggers, x.as_slice()) {
            Some(i) => {
                proof { lemma_doc_for_range(tree.script_triggers@, x@); }
                let ghost before = text_views(queue@);
                enqueue_trigger_refs(&tree.script_triggers[i].root, &mut queue);
                proof {
                    let added = trigger_ids(refs_of_node(t.script_triggers@[i as int].root));
                    let nq = text_views(queue@);
                    assert(nq == before + added);
                    assert(nq.skip(head as int) =~= before.skip(head as int) + added);
                    assert forall|y: Seq<char>| added.contains(y) implies u.contains(y) && is_reachable(t, y) by {
                        assert(linked(t, x@, y));
                        assert(reached_within(t, y, kx + 1));
                        assert(doc_roots(t.script_triggers@)[i as int] == t.script_triggers@[i as int].root);
                        lemma_roots_ids_contain(doc_roots(t.script_triggers@), i as int, y);
                        let rr = roots_trigger_ids(doc_roots(t.script_triggers@));
                        let m = choose|m: int| 0 <= m < rr.len() && rr[m] == y;
                        assert(u[seeds(t).len() + m] == y);
                    }
                    assert forall|m: int| 0 <= m < nq.len() implies u.contains(#[trigger] nq[m]) by {
                        if m < before.len() {
                            assert(nq[m] == before[m]);
                        } else {
                            assert(nq[m] == added[m - before.len()]);
                            assert(added.contains(added[m - before.len()]));
                        }
                    }
                    assert forall|z: Seq<char>| nq.skip(head as int).contains(z) implies before.skip(head as int).contains(z) || added.contains(z) by {
                        let m = choose|m: int| 0 <= m < nq.skip(head as int).len() && nq.skip(head as int)[m] == z;
                        if m < before.skip(head as int).len() {
                            assert(before.skip(head as int)[m] == z);
                        } else {
                            assert(added[m - before.skip(head as int).len()] == z);
                        }
                    }
                    assert forall|z: Seq<char>| before.skip(head as int).contains(z) || added.contains(z) implies nq.skip(head as int).contains(z) by {
                        if before.skip(head as int).contains(z) {
                            let m = choose|m: int| 0 <= m < before.skip(head as int).len() && before.skip(head as int)[m] == z;
                            assert(nq.skip(head as int)[m] == z);
                        } else {
                            let m = choose|m: int| 0 <= m < added.len() && added[m] == z;
                            assert(nq.skip(head as int)[before.skip(head as int).len() + m] == z);
                        }
                    }
                    assert forall|p: Seq<char>, y: Seq<char>| text_views(reached@).contains(p) && #[trigger] linked(t, p, y)
                        implies text_views(reached@).contains(y) || nq.skip(head as int).contains(y) by {
                        if p == x@ {
                            assert(added.contains(y));
                        } else {
                            let a = choose|a: int| 0 <= a < text_views(reached@).len() && text_views(reached@)[a] == p;
                            assert(rq[a] == p);
                            assert(rq.contains(p));
                            assert(rq.contains(y) || pending.contains(y));
                            if rq.contains(y) {
                                let b = choose|b: int| 0 <= b < rq.len() && rq[b] == y;
                                assert(text_views(reached@)[b] == y);
                            } else if y == x@ {
                                assert(text_views(reached@)[rq.len() as int] == x@);
                            } else {
                                let m = choose|m: int| 0 <= m < pending.len() && pending[m] == y;
                                assert(m > 0);
                                assert(rest[m - 1] == y);
                                assert(before.skip(head as int)[m - 1] == y);
                                assert(before.skip(head as int).contains(y));
                            }
                        }
                    }
                    assert forall|z: Seq<char>| text_views(reached@).contains(z) implies rq.contains(z) || z == x@ by {
                        let a = choose|a: int| 0 <= a < text_views(reached@).len() && text_views(reached@)[a] == z;
                        if a < rq.len() {
                            assert(rq[a] == z);
                        }
                    }
                    assert forall|z: Seq<char>| rq.contains(z) implies text_views(reached@).contains(z) by {
                        let a = choose|a: int| 0 <= a < rq.len() && rq[a] == z;
                        assert(text_views(reached@)[a] == z);
                    }
                    assert(text_views(reached@)[rq.len() as int] == x@);
                }
            },
            None => {
                proof {
                    lemma_doc_for_range(tree.script_triggers@, x@);
                    assert forall|z: Seq<char>| text_views(reached@).contains(z) implies rq.contains(z) || z == x@ by {
                        let a = choose|a: int| 0 <= a < text_views(reached@).len() && text_views(reached@)[a] == z;
                        if a < rq.len() {
                            assert(rq[a] == z);
                        }
                    }
                    assert forall|z: Seq<char>| rq.contains(z) implies text_views(reached@).contains(z) by {
                        let a = choose|a: int| 0 <= a < rq.len() && rq[a] == z;
                        assert(text_views(reached@)[a] == z);
                    }
                    assert(text_views(reached@)[rq.len() as int] == x@);
                }
            },
        }
    }
    proof {
        assert(text_views(queue@).skip(head as int) =~= Seq::<Seq<char>>::empty());
        assert forall|x: Seq<char>| is_reachable(t, x) implies text_views(reached@).contains(x) by {
            let k = choose|k: nat| reached_within(t, x, k);
            lemma_closed_holds_reached(t, text_views(reached@), x, k);
        }
    }
    reached
}

// ----- the census of a tree ----------------------------------------------------------

pub open spec fn roots_nodes(roots: Seq<ScriptNodeDocument>) -> Seq<(Seq<char>, Seq<char>)>
    decreases roots.len(),
{
    if roots.len() == 0 { Seq::empty() } else { roots_nodes(roots.drop_last()) + nodes_of_node(roots.last()) }
}

/// Whether trigger document `i` is counted as reachable: its id is reachable
/// and it is the last document carrying that id.
pub open spec fn counted_doc(t: SourceTree, i: int) -> bool {
    is_reachable(t, t.script_triggers@[i].id@) && doc_for(t.script_triggers@, t.script_triggers@[i].id@) == Some(i)
}

pub open spec fn reach_doc_nodes(t: SourceTree, n: int) -> Seq<(Seq<char>, Seq<char>)>
    decreases n,
{
    if n <= 0 {
        Seq::empty()
    } else {
        reach_doc_nodes(t, n - 1) + if counted_doc(t, n - 1) { nodes_of_node(t.script_triggers@[n - 1].root) } else { Seq::empty() }
    }
}

pub open spec fn reach_doc_count(t: SourceTree, n: int) -> nat
    decreases n,
{
    if n <= 0 { 0 } else { reach_doc_count(t, n - 1) + if counted_doc(t, n - 1) { 1nat } else { 0nat } }
}

/// Every node of every script row: quest roots, then trigger documents.
pub open spec fn all_nodes(t: SourceTree) -> Seq<(Seq<char>, Seq<char>)> {
    roots_nodes(quest_roots(t.quest_scripts@)) + roots_nodes(doc_roots(t.script_triggers@))
}

/// The nodes reachable from quest roots: the roots themselves, then every
/// reachable trigger document.
pub open spec fn reach_nodes(t: SourceTree) -> Seq<(Seq<char>, Seq<char>)> {
    roots_nodes(quest_roots(t.quest_scripts@)) + reach_doc_nodes(t, t.script_triggers@.len() as int)
}

proof fn lemma_roots_nodes_concat(a: Seq<ScriptNodeDocument>, b: Seq<ScriptNodeDocument>)
    ensures
        roots_nodes(a + b) == roots_nodes(a) + roots_nodes(b),
    decreases b.len(),
{
    if b.len() == 0 {
        assert(a + b =~= a);
        assert(roots_nodes(a) + roots_nodes(b) =~= roots_nodes(a));
    } else {
        lemma_roots_nodes_concat(a, b.drop_last());
        assert((a + b).drop_last() =~= a + b.drop_last());
        assert(roots_nodes(a + b) =~= roots_nodes(a) + roots_nodes(b));
    }
}

proof fn lemma_reach_doc_bound(t: SourceTree, n: int)
    requires
        0 <= n <= t.script_triggers@.len(),
    ensures
        reach_doc_nodes(t, n).len() <= roots_nodes(doc_roots(t.script_triggers@).take(n)).len(),
        reach_doc_count(t, n) <= n,
    decreases n,
{
    if n > 0 {
        lemma_reach_doc_bound(t, n - 1);
        let d = doc_roots(t.script_triggers@);
        assert(d.take(n).drop_last() =~= d.take(n - 1));
        assert(d.take(n).last() == t.script_triggers@[n - 1].root);
    } else {
        assert(doc_roots(t.script_triggers@).take(0) =~= Seq::<ScriptNodeDocument>::empty());
    }
}

impl ScriptCensusReport {
    fn empty(quest_scripts: usize, script_triggers: usize) -> (c: Self)
        ensures
            c.wf_side(false),
            c.wf_side(true),
            c.nodes == 0,
            c.reachable_nodes == 0,
            c.quest_scripts == quest_scripts,
            c.script_triggers == script_triggers,
            c.reachable_script_triggers == 0,
            forall|b: nat, k: Seq<char>| #[trigger] count_in(c.bucket(false, b), k) == 0,
            forall|b: nat, k: Seq<char>| #[trigger] count_in(c.bucket(true, b), k) == 0,
    {
        let c = ScriptCensusReport {
            quest_scripts,
            script_triggers,
            nodes: 0,
            implemented: Vec::new(),
            inert_and_counted: Vec::new(),
            refused: Vec::new(),
            reachable_script_triggers: 0,
            reachable_nodes: 0,
            reachable_implemented: Vec::new(),
            reachable_inert_and_counted: Vec::new(),
            reachable_refused: Vec::new(),
        };
        proof {
            let e: Seq<(String, usize)> = Seq::empty();
            assert(tally_views(c.implemented@) =~= Seq::empty());
            assert(tally_views(c.inert_and_counted@) =~= Seq::empty());
            assert(tally_views(c.refused@) =~= Seq::empty());
            assert(tally_views(c.reachable_implemented@) =~= Seq::empty());
            assert(tally_views(c.reachable_inert_and_counted@) =~= Seq::empty());
            assert(tally_views(c.reachable_refused@) =~= Seq::empty());
        }
        c
    }

    /// Counts one script tree towards the whole-pack census.
    fn count(&mut self, node: &ScriptNodeDocument)
        requires
            old(self).wf_side(false),
            old(self).nodes + nodes_of_node(*node).len() <= usize::MAX,
        ensures
            final(self).wf_side(false),
            final(self).wf_side(true) == old(self).wf_side(true),
            final(self).nodes == old(self).nodes + nodes_of_node(*node).len(),
            final(self).reachable_nodes == old(self).reachable_nodes,
            forall|b: nat, k: Seq<char>| b < 3 ==> #[trigger] count_in(final(self).bucket(false, b), k)
                == count_in(old(self).bucket(false, b), k) + tally_of(nodes_of_node(*node), b, k),
            forall|b: nat| b < 3 ==> #[trigger] final(self).bucket(true, b) == old(self).bucket(true, b),
            final(self).quest_scripts == old(self).quest_scripts,
            final(self).script_triggers == old(self).script_triggers,
            final(self).reachable_script_triggers == old(self).reachable_script_triggers,
    {
        self.tally_node(node, false);
        assert forall|b: nat| b < 3 implies #[trigger] self.bucket(true, b) == old(self).bucket(true, b) by {
            assert(self.other_bucket(false, b) == old(self).other_bucket(false, b));
        }
    }

    /// Counts one script tree towards the reachable census.
    fn count_reachable(&mut self, node: &ScriptNodeDocument)
        requires
            old(self).wf_side(true),
            old(self).reachable_nodes + nodes_of_node(*node).len() <= usize::MAX,
        ensures
            final(self).wf_side(true),
            final(self).wf_side(false) == old(self).wf_side(false),
            final(self).reachable_nodes == old(self).reachable_nodes + nodes_of_node(*node).len(),
            final(self).nodes == old(self).nodes,
            forall|b: nat, k: Seq<char>| b < 3 ==> #[trigger] count_in(final(self).bucket(true, b), k)
                == count_in(old(self).bucket(true, b), k) + tally_of(nodes_of_node(*node), b, k),
            forall|b: nat| b < 3 ==> #[trigger] final(self).bucket(false, b) == old(self).bucket(false, b),
            final(self).quest_scripts == old(self).quest_scripts,
            final(self).script_triggers == old(self).script_triggers,
            final(self).reachable_script_triggers == old(self).reachable_script_triggers,
    {
        self.tally_node(node, true);
        assert forall|b: nat| b < 3 implies #[trigger] self.bucket(false, b) == old(self).bucket(false, b) by {
            assert(self.other_bucket(true, b) == old(self).other_bucket(true, b));
        }
    }
}

pub open spec fn census_of(t: SourceTree, c: ScriptCensusReport) -> bool {
    &&& c.quest_scripts == t.quest_scripts@.len()
    &&& c.script_triggers == t.script_triggers@.len()
    &&& c.wf_side(false)
    &&& c.wf_side(true)
    &&& c.nodes == all_nodes(t).len()
    &&& forall|b: nat, k: Seq<char>| b < 3 ==> #[trigger] count_in(c.bucket(false, b), k) == tally_of(all_nodes(t), b, k)
    &&& c.reachable_nodes == reach_nodes(t).len()
    &&& forall|b: nat, k: Seq<char>| b < 3 ==> #[trigger] count_in(c.bucket(true, b), k) == tally_of(reach_nodes(t), b, k)
    &&& c.reachable_script_triggers == reach_doc_count(t, t.script_triggers@.len() as int)
}

impl ScriptCensusReport {
    /// Counts each of `roots`, on the whole-pack side and, when asked, on the
    /// reachable side too.
    fn count_roots(&mut self, roots: &Vec<ScriptNodeDocument>, reachable_too: bool)
        requires
            old(self).wf_side(false),
            old(self).wf_side(true),
            old(self).nodes + roots_nodes(roots@).len() <= usize::MAX,
            reachable_too ==> old(self).reachable_nodes + roots_nodes(roots@).len() <= usize::MAX,
        ensures
            final(self).wf_side(false),
            final(self).wf_side(true),
            final(self).nodes == old(self).nodes + roots_nodes(roots@).len(),
            final(self).reachable_nodes == old(self).reachable_nodes + if reachable_too { roots_nodes(roots@).len() } else { 0 },
            forall|b: nat, k: Seq<char>| b < 3 ==> #[trigger] count_in(final(self).bucket(false, b), k)
                == count_in(old(self).bucket(false, b), k) + tally_of(roots_nodes(roots@), b, k),
            forall|b: nat, k: Seq<char>| b < 3 ==> #[trigger] count_in(final(self).bucket(true, b), k)
                == count_in(old(self).bucket(true, b), k) + if reachable_too { tally_of(roots_nodes(roots@), b, k) } else { 0 },
            final(self).quest_scripts == old(self).quest_scripts,
            final(self).script_triggers == old(self).script_triggers,
            final(self).reachable_script_triggers == old(self).reachable_script_triggers,
    {
        let ghost s0 = *self;
        let ghost rv = roots@;
        let mut i: usize = 0;
        assert(rv.take(0) =~= Seq::<ScriptNodeDocument>::empty());
        while i < roots.len()
            invariant
                i <= rv.len(),
                rv == roots@,
                self.wf_side(false),
                self.wf_side(true),
                s0.nodes + roots_nodes(rv).len() <= usize::MAX,
                reachable_too ==> s0.reachable_nodes + roots_nodes(rv).len() <= usize::MAX,
                self.nodes == s0.nodes + roots_nodes(rv.take(i as int)).len(),
                self.reachable_nodes == s0.reachable_nodes + if reachable_too { roots_nodes(rv.take(i as int)).len() } else { 0 },
                forall|b: nat, k: Seq<char>| b < 3 ==> #[trigger] count_in(self.bucket(false, b), k)
                    == count_in(s0.bucket(false, b), k) + tally_of(roots_nodes(rv.take(i as int)), b, k),
                forall|b: nat, k: Seq<char>| b < 3 ==> #[trigger] count_in(self.bucket(true, b), k)
                    == count_in(s0.bucket(true, b), k) + if reachable_too { tally_of(roots_nodes(rv.take(i as int)), b, k) } else { 0 },
                self.quest_scripts == s0.quest_scripts,
                self.script_triggers == s0.script_triggers,
                self.reachable_script_triggers == s0.reachable_script_triggers,
            decreases rv.len() - i,
        {
            assert(rv.take(i + 1).drop_last() =~= rv.take(i as int));
            assert(rv.take(i + 1).last() == rv[i as int]);
            proof { lemma_roots_prefix(rv, i as int); }
            let ghost mid = *self;
            self.count(&roots[i]);
            if reachable_too {
                self.count_reachable(&roots[i]);
            }
            proof {
                assert forall|b: nat, k: Seq<char>| b < 3 implies #[trigger] count_in(self.bucket(false, b), k)
                    == count_in(s0.bucket(false, b), k) + tally_of(roots_nodes(rv.take(i + 1)), b, k) by {
                    lemma_tally_concat(roots_nodes(rv.take(i as int)), nodes_of_node(rv[i as int]), b, k);
                }
                assert forall|b: nat, k: Seq<char>| b < 3 implies #[trigger] count_in(self.bucket(true, b), k)
                    == count_in(s0.bucket(true, b), k) + if reachable_too { tally_of(roots_nodes(rv.take(i + 1)), b, k) } else { 0 } by {
                    lemma_tally_concat(roots_nodes(rv.take(i as int)), nodes_of_node(rv[i as int]), b, k);
                }
            }
            i = i + 1;
        }
        assert(rv.take(rv.len() as int) =~= rv);
    }
}

proof fn lemma_roots_prefix(rs: Seq<ScriptNodeDocument>, i: int)
    requires
        0 <= i < rs.len(),
    ensures
        roots_nodes(rs.take(i)).len() + nodes_of_node(rs[i]).len() <= roots_nodes(rs).len(),
    decreases rs.len(),
{
    if i < rs.len() - 1 {
        assert(rs.drop_last().take(i) =~= rs.take(i));
        assert(rs.drop_last()[i] == rs[i]);
        lemma_roots_prefix(rs.drop_last(), i);
    } else {
        assert(rs.drop_last() =~= rs.take(i));
    }
}

impl ScriptCensusReport {
    /// The census of a tree's script rows; `None` when it holds none.
    pub fn of(tree: &SourceTree) -> (r: Option<Self>)
        requires
            all_nodes(*tree).len() <= usize::MAX,
        ensures
            r is None <==> (tree.quest_scripts@.len() == 0 && tree.script_triggers@.len() == 0),
            r matches Some(c) ==> census_of(*tree, c),
    {
        if tree.quest_scripts.len() == 0 && tree.script_triggers.len() == 0 {
            return None;
        }
        let ghost t = *tree;
        let ghost qr = quest_roots(t.quest_scripts@);
        let ghost dr = doc_roots(t.script_triggers@);
        let mut census = ScriptCensusReport::empty(tree.quest_scripts.len(), tree.script_triggers.len());
        proof {
            lemma_roots_nodes_concat(qr, dr);
            lemma_reach_doc_bound(t, t.script_triggers@.len() as int);
            assert(dr.take(t.script_triggers@.len() as int) =~= dr);
        }
        // quest roots count on both sides
        let qs = &tree.quest_scripts;
        let mut j: usize = 0;
        assert(qs@.take(0) =~= Seq::<crate::source::QuestScriptDocument>::empty());
        while j < qs.len()
            invariant
                j <= qs@.len(),
                t == *tree,
                qs@ == t.quest_scripts@,
                qr == quest_roots(t.quest_scripts@),
                census.wf_side(false),
                census.wf_side(true),
                census.quest_scripts == t.quest_scripts@.len(),
                census.script_triggers == t.script_triggers@.len(),
                census.reachable_script_triggers == 0,
                roots_nodes(qr).len() + roots_nodes(dr).len() <= usize::MAX,
                roots_nodes(quest_roots(qs@.take(j as int))).len() <= roots_nodes(qr).len(),
                census.nodes == roots_nodes(quest_roots(qs@.take(j as int))).len(),
                census.reachable_nodes == roots_nodes(quest_roots(qs@.take(j as int))).len(),
                forall|b: nat, k: Seq<char>| b < 3 ==> #[trigger] count_in(census.bucket(false, b), k)
                    == tally_of(roots_nodes(quest_roots(qs@.take(j as int))), b, k),
                forall|b: nat, k: Seq<char>| b < 3 ==> #[trigger] count_in(census.bucket(true, b), k)
                    == tally_of(roots_nodes(quest_roots(qs@.take(j as int))), b, k),
            decreases qs@.len() - j,
        {
            assert(qs@.take(j + 1).drop_last() =~= qs@.take(j as int));
            assert(qs@.take(j + 1).last() == qs@[j as int]);
            let ghost before = quest_roots(qs@.take(j as int));
            let ghost a = qs@[j as int].start_impacts@;
            let ghost g = qs@[j as int].trigger_agents@;
            proof {
                lemma_roots_nodes_concat(before, a);
                lemma_roots_nodes_concat(before + a, g);
                lemma_quest_roots_prefix(qs@, j as int);
                assert(quest_roots(qs@.take(j + 1)) == before + a + g);
            }
            census.count_roots(&qs[j].start_impacts, true);
            census.count_roots(&qs[j].trigger_agents, true);
            proof {
                assert(quest_roots(qs@.take(j + 1)) == before + a + g);
                assert forall|b: nat, k: Seq<char>| b < 3 implies #[trigger] count_in(census.bucket(false, b), k)
                    == tally_of(roots_nodes(quest_roots(qs@.take(j + 1))), b, k) by {
                    lemma_tally_concat(roots_nodes(before), roots_nodes(a), b, k);
                    lemma_tally_concat(roots_nodes(before) + roots_nodes(a), roots_nodes(g), b, k);
                }
                assert forall|b: nat, k: Seq<char>| b < 3 implies #[trigger] count_in(census.bucket(true, b), k)
                    == tally_of(roots_nodes(quest_roots(qs@.take(j + 1))), b, k) by {
                    lemma_tally_concat(roots_nodes(before), roots_nodes(a), b, k);
                    lemma_tally_concat(roots_nodes(before) + roots_nodes(a), roots_nodes(g), b, k);
                }
            }
            j = j + 1;
        }
        assert(qs@.take(qs@.len() as int) =~= qs@);
        // every trigger document counts on the whole-pack side
        let docs = &tree.script_triggers;
        let mut i: usize = 0;
        assert(dr.take(0) =~= Seq::<ScriptNodeDocument>::empty());
        while i < docs.len()
            invariant
                i <= docs@.len(),
                t == *tree,
                docs@ == t.script_triggers@,
                dr == doc_roots(t.script_triggers@),
                qr == quest_roots(t.quest_scripts@),
                census.wf_side(false),
                census.wf_side(true),
                census.quest_scripts == t.quest_scripts@.len(),
                census.script_triggers == t.script_triggers@.len(),
                census.reachable_script_triggers == 0,
                roots_nodes(qr).len() + roots_nodes(dr).len() <= usize::MAX,
                census.nodes == roots_nodes(qr).len() + roots_nodes(dr.take(i as int)).len(),
                census.reachable_nodes == roots_nodes(qr).len(),
                forall|b: nat, k: Seq<char>| b < 3 ==> #[trigger] count_in(census.bucket(false, b), k)
                    == tally_of(roots_nodes(qr) + roots_nodes(dr.take(i as int)), b, k),
                forall|b: nat, k: Seq<char>| b < 3 ==> #[trigger] count_in(census.bucket(true, b), k)
                    == tally_of(roots_nodes(qr), b, k),
            decreases docs@.len() - i,
        {
            assert(dr.take(i + 1).drop_last() =~= dr.take(i as int));
            assert(dr.take(i + 1).last() == docs@[i as int].root);
            proof { lemma_roots_prefix(dr, i as int); }
            census.count(&docs[i].root);
            proof {
                assert forall|b: nat, k: Seq<char>| b < 3 implies #[trigger] count_in(census.bucket(false, b), k)
                    == tally_of(roots_nodes(qr) + roots_nodes(dr.take(i + 1)), b, k) by {
                    lemma_tally_concat(roots_nodes(qr), roots_nodes(dr.take(i as int)), b, k);
                    lemma_tally_concat(roots_nodes(qr), roots_nodes(dr.take(i + 1)), b, k);
                    lemma_tally_concat(roots_nodes(dr.take(i as int)), nodes_of_node(docs@[i as int].root), b, k);
                }
            }
            i = i + 1;
        }
        assert(dr.take(docs@.len() as int) =~= dr);
        // the reachable trigger documents, each id once
        let reached = reachable_triggers(tree);
        let mut m: usize = 0;
        while m < docs.len()
            invariant
                m <= docs@.len(),
                t == *tree,
                docs@ == t.script_triggers@,
                dr == doc_roots(t.script_triggers@),
                qr == quest_roots(t.quest_scripts@),
                forall|x: Seq<char>| text_views(reached@).contains(x) <==> is_reachable(t, x),
                census.wf_side(false),
                census.wf_side(true),
                census.quest_scripts == t.quest_scripts@.len(),
                census.script_triggers == t.script_triggers@.len(),
                census.nodes == all_nodes(t).len(),
                forall|b: nat, k: Seq<char>| b < 3 ==> #[trigger] count_in(census.bucket(false, b), k) == tally_of(all_nodes(t), b, k),
                roots_nodes(qr).len() + roots_nodes(dr).len() <= usize::MAX,
                census.reachable_script_triggers == reach_doc_count(t, m as int),
                census.reachable_nodes == roots_nodes(qr).len() + reach_doc_nodes(t, m as int).len(),
                forall|b: nat, k: Seq<char>| b < 3 ==> #[trigger] count_in(census.bucket(true, b), k)
                    == tally_of(roots_nodes(qr) + reach_doc_nodes(t, m as int), b, k),
            decreases docs@.len() - m,
        {
            let id = chars_of(docs[m].id.as_str());
            let is_reached = holds_id(&reached, id.as_slice(), 0);
            assert(text_views(reached@).skip(0) =~= text_views(reached@));
            let last = match find_doc(docs, id.as_slice()) {
                Some(w) => w == m,
                None => false,
            };
            assert((is_reached && last) == counted_doc(t, m as int));
            proof {
                lemma_reach_doc_bound(t, m + 1);
                assert(dr.take(m + 1).len() <= dr.len());
                lemma_roots_take_bound(dr, m + 1);
                lemma_reach_doc_bound(t, m as int);
            }
            if is_reached && last {
                census.count_reachable(&docs[m].root);
                census.reachable_script_triggers = census.reachable_script_triggers + 1;
                proof {
                    assert forall|b: nat, k: Seq<char>| b < 3 implies #[trigger] count_in(census.bucket(true, b), k)
                        == tally_of(roots_nodes(qr) + reach_doc_nodes(t, m + 1), b, k) by {
                        lemma_tally_concat(roots_nodes(qr), reach_doc_nodes(t, m as int), b, k);
                        lemma_tally_concat(roots_nodes(qr), reach_doc_nodes(t, m + 1), b, k);
                        lemma_tally_concat(reach_doc_nodes(t, m as int), nodes_of_node(docs@[m as int].root), b, k);
                    }
                }
            } else {
                assert(reach_doc_nodes(t, m + 1) =~= reach_doc_nodes(t, m as int));
            }
            m = m + 1;
        }
        Some(census)
    }
}

proof fn lemma_quest_roots_prefix(qs: Seq<crate::source::QuestScriptDocument>, j: int)
    requires
        0 <= j < qs.len(),
    ensures
        roots_nodes(quest_roots(qs.take(j + 1))).len() <= roots_nodes(quest_roots(qs)).len(),
    decreases qs.len(),
{
    if j < qs.len() - 1 {
        assert(qs.drop_last().take(j + 1) =~= qs.take(j + 1));
        lemma_quest_roots_prefix(qs.drop_last(), j);
        let p = quest_roots(qs.drop_last());
        lemma_roots_nodes_concat(p, qs.last().start_impacts@);
        lemma_roots_nodes_concat(p + qs.last().start_impacts@, qs.last().trigger_agents@);
    } else {
        assert(qs.take(j + 1) =~= qs);
    }
}

proof fn lemma_roots_take_bound(rs: Seq<ScriptNodeDocument>, n: int)
    requires
        0 <= n <= rs.len(),
    ensures
        roots_nodes(rs.take(n)).len() <= roots_nodes(rs).len(),
    decreases rs.len(),
{
    if n < rs.len() {
        assert(rs.drop_last().take(n) =~= rs.take(n));
        lemma_roots_take_bound(rs.drop_last(), n);
    } else {
        assert(rs.take(n) =~= rs);
    }
}

// ----- the build report ------------------------------------------------------------

#[derive(Debug)]
pub struct LayerReport {
    pub id: String,
    pub description: String,
    pub documents: usize,
}

#[derive(Debug)]
pub struct NoteReport {
    pub document: String,
    pub layer: String,
    pub source: String,
    pub note: String,
}

#[derive(Debug)]
pub struct SkippedOverlayReport {
    pub document: String,
    pub layer: String,
    pub source: String,
    pub note: String,
}

/// What the compiler chose to compile out of what the tree offered.
#[derive(Debug)]
pub struct SelectionReport {
    pub items_opened_from_index: usize,
    pub loot_tables_compiled: usize,
    pub loot_tables_unreachable: usize,
    pub locale_keys: usize,
}

#[derive(Debug)]
pub struct ReferenceSummary {
    pub resolved: usize,
    pub dangling: Vec<String>,
    pub external: Vec<String>,
    pub unmodelled: Vec<String>,
    pub locale_gaps: Vec<String>,
    pub locale_gaps_by_namespace: Vec<(String, usize)>,
}

/// Everything about a build that must not affect its digest.
#[derive(Debug)]
pub struct BuildReport {
    pub pack_id: String,
    pub ruleset: String,
    pub zone: String,
    pub layers: Vec<LayerReport>,
    pub curation_notes: Vec<NoteReport>,
    pub skipped_overlay_documents: Vec<SkippedOverlayReport>,
    pub overlay_conflicts: Vec<String>,
    pub deleted_documents: Vec<String>,
    pub selection: SelectionReport,
    pub scripts: Option<ScriptCensusReport>,
    pub references: ReferenceSummary,
}

pub open spec fn external_text(e: (Seq<char>, Seq<char>, Seq<char>, Seq<char>)) -> Seq<char> {
    e.0 + ": "@ + e.1 + " references "@ + e.2 + " in zone "@ + e.3
}

pub open spec fn unmodelled_text(e: (Seq<char>, Seq<char>, Seq<char>)) -> Seq<char> {
    e.0 + ": "@ + e.1 + " references "@ + e.2 + ", which this pack models no row for"@
}

pub open spec fn gap_text(e: (Seq<char>, Seq<char>, Seq<char>)) -> Seq<char> {
    e.0 + " ("@ + e.1 + ") wants "@ + e.2
}

fn texts(lines: Vec<Vec<char>>) -> (out: Vec<String>)
    ensures
        text_views(out@) == crate::text::views_of(lines@),
{
    let mut out: Vec<String> = Vec::new();
    let mut i: usize = 0;
    while i < lines.len()
        invariant
            i <= lines@.len(),
            text_views(out@) == crate::text::views_of(lines@).take(i as int),
        decreases lines@.len() - i,
    {
        let ghost before = text_views(out@);
        let s = string_of(lines[i].as_slice());
        out.push(s);
        assert(text_views(out@) =~= before.push(s@));
        assert(text_views(out@) =~= crate::text::views_of(lines@).take(i + 1));
        i = i + 1;
    }
    assert(crate::text::views_of(lines@).take(lines@.len() as int) =~= crate::text::views_of(lines@));
    out
}

fn reference_summary(references: &ReferenceReport) -> (s: ReferenceSummary)
    ensures
        s.resolved == references.resolved,
        text_views(s.dangling@) == references@.dangling.map_values(|d: (Seq<char>, Seq<char>, Seq<char>)| dangling_text(d.0, d.1, d.2)),
        text_views(s.external@) == references@.external.map_values(|e: (Seq<char>, Seq<char>, Seq<char>, Seq<char>)| external_text(e)),
        text_views(s.unmodelled@) == references@.unmodelled.map_values(|e: (Seq<char>, Seq<char>, Seq<char>)| unmodelled_text(e)),
        text_views(s.locale_gaps@) == references@.gaps.map_values(|e: (Seq<char>, Seq<char>, Seq<char>)| gap_text(e)),
        counts_match(count_views(s.locale_gaps_by_namespace@), references@.gaps),
{
    let mut dangling: Vec<String> = Vec::new();
    let mut i: usize = 0;
    while i < references.dangling.len()
        invariant
            i <= references.dangling@.len(),
            text_views(dangling@) == references@.dangling.take(i as int).map_values(|d: (Seq<char>, Seq<char>, Seq<char>)| dangling_text(d.0, d.1, d.2)),
        decreases references.dangling@.len() - i,
    {
        let ghost before = text_views(dangling@);
        let d = references.dangling[i].describe();
        dangling.push(d);
        assert(text_views(dangling@) =~= before.push(d@));
        assert(references@.dangling.take(i + 1) =~= references@.dangling.take(i as int).push(references@.dangling[i as int]));
        assert(text_views(dangling@) =~= references@.dangling.take(i + 1).map_values(|d: (Seq<char>, Seq<char>, Seq<char>)| dangling_text(d.0, d.1, d.2)));
        i = i + 1;
    }
    assert(references@.dangling.take(references.dangling@.len() as int) =~= references@.dangling);
    let mut external: Vec<String> = Vec::new();
    let mut i: usize = 0;
    while i < references.external.len()
        invariant
            i <= references.external@.len(),
            text_views(external@) == references@.external.take(i as int).map_values(|e: (Seq<char>, Seq<char>, Seq<char>, Seq<char>)| external_text(e)),
        decreases references.external@.len() - i,
    {
        let e = &references.external[i];
        let mut line: Vec<char> = Vec::new();
        push_str(&mut line, e.class.as_str());
        push_str(&mut line, ": ");
        push_str(&mut line, e.referencer.as_str());
        push_str(&mut line, " references ");
        push_str(&mut line, e.target.as_str());
        push_str(&mut line, " in zone ");
        push_str(&mut line, e.zone.as_str());
        let ghost before = text_views(external@);
        let t = string_of(line.as_slice());
        external.push(t);
        assert(references@.external[i as int] == (e.class@, e.referencer@, e.target@, e.zone@));
        assert(t@ =~= external_text(references@.external[i as int]));
        assert(text_views(external@) =~= before.push(t@));
        assert(references@.external.take(i + 1) =~= references@.external.take(i as int).push(references@.external[i as int]));
        assert(text_views(external@) =~= references@.external.take(i + 1).map_values(|e: (Seq<char>, Seq<char>, Seq<char>, Seq<char>)| external_text(e)));
        i = i + 1;
    }
    assert(references@.external.take(references.external@.len() as int) =~= references@.external);
    let mut unmodelled: Vec<String> = Vec::new();
    let mut i: usize = 0;
    while i < references.unmodelled.len()
        invariant
            i <= references.unmodelled@.len(),
            text_views(unmodelled@) == references@.unmodelled.take(i as int).map_values(|e: (Seq<char>, Seq<char>, Seq<char>)| unmodelled_text(e)),
        decreases references.unmodelled@.len() - i,
    {
        let e = &references.unmodelled[i];
        let mut line: Vec<char> = Vec::new();
        push_str(&mut line, e.class.as_str());
        push_str(&mut line, ": ");
        push_str(&mut line, e.referencer.as_str());
        push_str(&mut line, " references ");
        push_str(&mut line, e.target.as_str());
        push_str(&mut line, ", which this pack models no row for");
        let ghost before = text_views(unmodelled@);
        let t = string_of(line.as_slice());
        unmodelled.push(t);
        assert(references@.unmodelled[i as int] == (e.class@, e.referencer@, e.target@));
        assert(t@ =~= unmodelled_text(references@.unmodelled[i as int]));
        assert(text_views(unmodelled@) =~= before.push(t@));
        assert(references@.unmodelled.take(i + 1) =~= references@.unmodelled.take(i as int).push(references@.unmodelled[i as int]));
        assert(text_views(unmodelled@) =~= references@.unmodelled.take(i + 1).map_values(|e: (Seq<char>, Seq<char>, Seq<char>)| unmodelled_text(e)));
        i = i + 1;
    }
    assert(references@.unmodelled.take(references.unmodelled@.len() as int) =~= references@.unmodelled);
    let mut gaps: Vec<String> = Vec::new();
    let mut i: usize = 0;
    while i < references.locale_gaps.len()
        invariant
            i <= references.locale_gaps@.len(),
            text_views(gaps@) == references@.gaps.take(i as int).map_values(|e: (Seq<char>, Seq<char>, Seq<char>)| gap_text(e)),
        decreases references.locale_gaps@.len() - i,
    {
        let e = &references.locale_gaps[i];
        let mut line: Vec<char> = Vec::new();
        push_str(&mut line, e.referencer.as_str());
        push_str(&mut line, " (");
        push_str(&mut line, e.field.as_str());
        push_str(&mut line, ") wants ");
        push_str(&mut line, e.key.as_str());
        let ghost before = text_views(gaps@);
        let t = string_of(line.as_slice());
        gaps.push(t);
        assert(references@.gaps[i as int] == (e.referencer@, e.field@, e.key@));
        assert(t@ =~= gap_text(references@.gaps[i as int]));
        assert(text_views(gaps@) =~= before.push(t@));
        assert(references@.gaps.take(i + 1) =~= references@.gaps.take(i as int).push(references@.gaps[i as int]));
        assert(text_views(gaps@) =~= references@.gaps.take(i + 1).map_values(|e: (Seq<char>, Seq<char>, Seq<char>)| gap_text(e)));
        i = i + 1;
    }
    assert(references@.gaps.take(references.locale_gaps@.len() as int) =~= references@.gaps);
    ReferenceSummary {
        resolved: references.resolved,
        dangling,
        external,
        unmodelled,
        locale_gaps: gaps,
        locale_gaps_by_namespace: gaps_by_namespace(references),
    }
}

pub open spec fn layer_report_views(v: Seq<LayerReport>) -> Seq<(Seq<char>, Seq<char>, usize)> {
    v.map_values(|l: LayerReport| (l.id@, l.description@, l.documents))
}

pub open spec fn applied_views(v: Seq<crate::source::AppliedLayer>) -> Seq<(Seq<char>, Seq<char>, usize)> {
    v.map_values(|l: crate::source::AppliedLayer| (l.id@, l.description@, l.documents))
}

pub open spec fn note_report_views(v: Seq<NoteReport>) -> Seq<(Seq<char>, Seq<char>, Seq<char>, Seq<char>)> {
    v.map_values(|n: NoteReport| (n.document@, n.layer@, n.source@, n.note@))
}

pub open spec fn skipped_report_views(v: Seq<SkippedOverlayReport>) -> Seq<(Seq<char>, Seq<char>, Seq<char>, Seq<char>)> {
    v.map_values(|n: SkippedOverlayReport| (n.document@, n.layer@, n.source@, n.note@))
}

pub open spec fn skipped_views(v: Seq<crate::source::SkippedOverlayDocument>) -> Seq<(Seq<char>, Seq<char>, Seq<char>, Seq<char>)> {
    v.map_values(|n: crate::source::SkippedOverlayDocument| (n.document_id@, n.layer@, n.source@, n.note@))
}

impl BuildReport {
    /// The report of one build: the tree's layers, notes, skipped overlay
    /// documents, conflicts and deletions, what was selected, the script
    /// census, and the reference pass in words.
    pub fn new(pack_id: &str, ruleset: &str, zone: &str, tree: &SourceTree, references: &ReferenceReport, locale_keys: usize) -> (r: Self)
        requires
            all_nodes(*tree).len() <= usize::MAX,
        ensures
            r.pack_id@ == pack_id@,
            r.ruleset@ == ruleset@,
            r.zone@ == zone@,
            layer_report_views(r.layers@) == applied_views(tree.layers@),
            note_report_views(r.curation_notes@) == note_views(tree.notes@),
            skipped_report_views(r.skipped_overlay_documents@) == skipped_views(tree.skipped_overlay_documents@),
            text_views(r.overlay_conflicts@) == tree.conflicts@.map_values(|c: Conflict| conflict_text(c)),
            text_views(r.deleted_documents@) == text_views(tree.deleted@),
            r.selection.items_opened_from_index == tree.items_loaded_from_index,
            r.selection.loot_tables_compiled == tree.loot_tables@.len(),
            r.selection.loot_tables_unreachable == tree.unreachable_loot_tables,
            r.selection.locale_keys == locale_keys,
            r.scripts is None <==> (tree.quest_scripts@.len() == 0 && tree.script_triggers@.len() == 0),
            r.scripts matches Some(c) ==> census_of(*tree, c),
            r.references.resolved == references.resolved,
            text_views(r.references.dangling@) == references@.dangling.map_values(|d: (Seq<char>, Seq<char>, Seq<char>)| dangling_text(d.0, d.1, d.2)),
            text_views(r.references.external@) == references@.external.map_values(|e: (Seq<char>, Seq<char>, Seq<char>, Seq<char>)| external_text(e)),
            text_views(r.references.unmodelled@) == references@.unmodelled.map_values(|e: (Seq<char>, Seq<char>, Seq<char>)| unmodelled_text(e)),
            text_views(r.references.locale_gaps@) == references@.gaps.map_values(|e: (Seq<char>, Seq<char>, Seq<char>)| gap_text(e)),
            counts_match(count_views(r.references.locale_gaps_by_namespace@), references@.gaps),
    {
        let mut layers: Vec<LayerReport> = Vec::new();
        let mut i: usize = 0;
        while i < tree.layers.len()
            invariant
                i <= tree.layers@.len(),
                layer_report_views(layers@) == applied_views(tree.layers@).take(i as int),
            decreases tree.layers@.len() - i,
        {
            let l = &tree.layers[i];
            let ghost before = layer_report_views(layers@);
            let x = LayerReport { id: copy_text(&l.id), description: copy_text(&l.description), documents: l.documents };
            layers.push(x);
            assert(layer_report_views(layers@) =~= before.push((l.id@, l.description@, l.documents)));
            assert(layer_report_views(layers@) =~= applied_views(tree.layers@).take(i + 1));
            i = i + 1;
        }
        assert(applied_views(tree.layers@).take(tree.layers@.len() as int) =~= applied_views(tree.layers@));
        let mut notes: Vec<NoteReport> = Vec::new();
        let mut i: usize = 0;
        while i < tree.notes.len()
            invariant
                i <= tree.notes@.len(),
                note_report_views(notes@) == note_views(tree.notes@).take(i as int),
            decreases tree.notes@.len() - i,
        {
            let n = &tree.notes[i];
            let ghost before = note_report_views(notes@);
            let x = NoteReport { document: copy_text(&n.document_id), layer: copy_text(&n.layer), source: copy_text(&n.source), note: copy_text(&n.note) };
            notes.push(x);
            assert(note_report_views(notes@) =~= before.push((n.document_id@, n.layer@, n.source@, n.note@)));
            assert(note_report_views(notes@) =~= note_views(tree.notes@).take(i + 1));
            i = i + 1;
        }
        assert(note_views(tree.notes@).take(tree.notes@.len() as int) =~= note_views(tree.notes@));
        let mut skipped: Vec<SkippedOverlayReport> = Vec::new();
        let mut i: usize = 0;
        while i < tree.skipped_overlay_documents.len()
            invariant
                i <= tree.skipped_overlay_documents@.len(),
                skipped_report_views(skipped@) == skipped_views(tree.skipped_overlay_documents@).take(i as int),
            decreases tree.skipped_overlay_documents@.len() - i,
        {
            let n = &tree.skipped_overlay_documents[i];
            let ghost before = skipped_report_views(skipped@);
            let x = SkippedOverlayReport { document: copy_text(&n.document_id), layer: copy_text(&n.layer), source: copy_text(&n.source), note: copy_text(&n.note) };
            skipped.push(x);
            assert(skipped_report_views(skipped@) =~= before.push((n.document_id@, n.layer@, n.source@, n.note@)));
            assert(skipped_report_views(skipped@) =~= skipped_views(tree.skipped_overlay_documents@).take(i + 1));
            i = i + 1;
        }
        assert(skipped_views(tree.skipped_overlay_documents@).take(tree.skipped_overlay_documents@.len() as int)
            =~= skipped_views(tree.skipped_overlay_documents@));
        let mut conflicts: Vec<String> = Vec::new();
        let mut i: usize = 0;
        while i < tree.conflicts.len()
            invariant
                i <= tree.conflicts@.len(),
                text_views(conflicts@) == tree.conflicts@.take(i as int).map_values(|c: Conflict| conflict_text(c)),
            decreases tree.conflicts@.len() - i,
        {
            let ghost before = text_views(conflicts@);
            let d = tree.conflicts[i].describe();
            conflicts.push(d);
            assert(text_views(conflicts@) =~= before.push(d@));
            assert(tree.conflicts@.take(i + 1) =~= tree.conflicts@.take(i as int).push(tree.conflicts@[i as int]));
            assert(text_views(conflicts@) =~= tree.conflicts@.take(i + 1).map_values(|c: Conflict| conflict_text(c)));
            i = i + 1;
        }
        assert(tree.conflicts@.take(tree.conflicts@.len() as int) =~= tree.conflicts@);
        let mut deleted: Vec<String> = Vec::new();
        let mut i: usize = 0;
        while i < tree.deleted.len()
            invariant
                i <= tree.deleted@.len(),
                text_views(deleted@) == text_views(tree.deleted@).take(i as int),
            decreases tree.deleted@.len() - i,
        {
            let ghost before = text_views(deleted@);
            let d = copy_text(&tree.deleted[i]);
            deleted.push(d);
            assert(text_views(deleted@) =~= before.push(d@));
            assert(text_views(deleted@) =~= text_views(tree.deleted@).take(i + 1));
            i = i + 1;
        }
        assert(text_views(tree.deleted@).take(tree.deleted@.len() as int) =~= text_views(tree.deleted@));
        BuildReport {
            pack_id: string_of(chars_of(pack_id).as_slice()),
            ruleset: string_of(chars_of(ruleset).as_slice()),
            zone: string_of(chars_of(zone).as_slice()),
            layers,
            curation_notes: notes,
            skipped_overlay_documents: skipped,
            overlay_conflicts: conflicts,
            deleted_documents: deleted,
            selection: SelectionReport {
                items_opened_from_index: tree.items_loaded_from_index,
                loot_tables_compiled: tree.loot_tables.len(),
                loot_tables_unreachable: tree.unreachable_loot_tables,
                locale_keys,
            },
            scripts: ScriptCensusReport::of(tree),
            references: reference_summary(references),
        }
    }
}

} // verus!
