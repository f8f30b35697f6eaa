//! Assembling a pack from its tables: each table serialised from its rows,
//! the pack id over the tables, and the manifest's table entries in name
//! order, each with its file, row count, size and digest.

use vstd::prelude::*;
use crate::digest::{digest_hex, digest_hex_vec};
use crate::pack::{TableEntry, named_views, pack_id, pack_id_of};
use crate::scan::{lex_le, lex_le_exec};
use crate::table::{Row, TableError, encode, first_unsorted, total_len, encodable_size, row_views, table_bytes};
use crate::text::{chars_of, string_of, push_str};

verus! {

/// One table a build writes: its name, its row type's number and name, and
/// its rows in key order.
#[derive(Debug)]
pub struct BuildTable {
    pub name: String,
    pub row_type: i32,
    pub row_type_name: String,
    pub rows: Vec<Row>,
}

/// What assembling gives: the serialised tables in the order given, their
/// manifest entries in name order, and the pack id.
#[derive(Debug)]
pub struct AssembledPack {
    pub tables: Vec<(String, Vec<u8>)>,
    pub entries: Vec<TableEntry>,
    pub pack_id: String,
}

pub open spec fn build_table_bytes(t: BuildTable) -> Seq<u8> {
    table_bytes(t.row_type, row_views(t.rows@))
}

pub open spec fn entry_view(e: TableEntry) -> (Seq<char>, Seq<char>, Seq<char>, u32, u64, Seq<char>) {
    (e.name@, e.file@, e.row_type@, e.rows, e.bytes, e.blake3@)
}

pub open spec fn entry_views(v: Seq<TableEntry>) -> Seq<(Seq<char>, Seq<char>, Seq<char>, u32, u64, Seq<char>)> {
    v.map_values(|e: TableEntry| entry_view(e))
}

/// The manifest entry a table gets: its name, its file under `tables/`, its
/// row type's name, its row count, and the size and digest of its bytes.
pub open spec fn expected_entry(t: BuildTable) -> (Seq<char>, Seq<char>, Seq<char>, u32, u64, Seq<char>) {
    let b = build_table_bytes(t);
    (t.name@, "tables/"@ + t.name@ + ".sptbl"@, t.row_type_name@, t.rows@.len() as u32, b.len() as u64, digest_hex(b))
}

/// Whether serialising a table's rows is refused.
pub open spec fn table_refused(t: BuildTable) -> bool {
    first_unsorted(row_views(t.rows@), 0) is Some || total_len(row_views(t.rows@)) > u32::MAX
}

/// The refusal serialising `t` gives.
pub open spec fn refusal_of(t: BuildTable, e: TableError) -> bool {
    match first_unsorted(row_views(t.rows@), 0) {
        Some(i) => e matches TableError::Unsorted { position, first, second } && position == i
            && first@ == t.rows@[i as int].key@ && second@ == t.rows@[i + 1 as int].key@,
        None => e == TableError::TooLarge,
    }
}

/// The first of the first `n` tables whose serialisation is refused.
pub open spec fn first_refused(ts: Seq<BuildTable>, n: int) -> Option<int>
    decreases n,
{
    if n <= 0 {
        None
    } else {
        match first_refused(ts, n - 1) {
            Some(i) => Some(i),
            None => if table_refused(ts[n - 1]) { Some(n - 1) } else { None },
        }
    }
}

proof fn lemma_refused_stays(ts: Seq<BuildTable>, m: int, n: int)
    requires
        m <= n,
        first_refused(ts, m) is Some,
    ensures
        first_refused(ts, n) == first_refused(ts, m),
    decreases n - m,
{
    if m < n {
        lemma_refused_stays(ts, m, n - 1);
    }
}

/// `p` is what assembling `ts` gives: each table serialised from its rows in
/// the order given, the pack id over those tables, and one manifest entry
/// per table in name order.
pub open spec fn assembled(ts: Seq<BuildTable>, p: AssembledPack) -> bool {
    &&& p.tables@.len() == ts.len()
    &&& forall|k: int| 0 <= k < ts.len() ==> (#[trigger] p.tables@[k]).0@ == ts[k].name@
        && p.tables@[k].1@ == build_table_bytes(ts[k])
    &&& p.pack_id@ == pack_id_of(named_views(p.tables@))
    &&& forall|a: int, b: int| 0 <= a < b < p.entries@.len() ==> lex_le(#[trigger] p.entries@[a].name@, #[trigger] p.entries@[b].name@)
    &&& entry_views(p.entries@).to_multiset() == ts.map_values(|t: BuildTable| expected_entry(t)).to_multiset()
}

/// Two assemblies of the same tables are byte-identical: the same table
/// bytes under the same names, the same pack id and the same manifest
/// entries. Nothing but the rows, their row types and the table names
/// reaches them, so no time, path or host does.
pub proof fn lemma_assembly_is_reproducible(ts: Seq<BuildTable>, p1: AssembledPack, p2: AssembledPack)
    requires
        assembled(ts, p1),
        assembled(ts, p2),
    ensures
        named_views(p1.tables@) == named_views(p2.tables@),
        p1.pack_id@ == p2.pack_id@,
        entry_views(p1.entries@).to_multiset() == entry_views(p2.entries@).to_multiset(),
{
    assert(named_views(p1.tables@) =~= named_views(p2.tables@)) by {
        assert forall|k: int| 0 <= k < ts.len() implies named_views(p1.tables@)[k] == named_views(p2.tables@)[k] by {
            assert(p1.tables@[k].0@ == ts[k].name@);
            assert(p2.tables@[k].0@ == ts[k].name@);
        }
    }
}

fn insert_table_entry(v: &mut Vec<TableEntry>, x: TableEntry)
    ensures
        entry_views(final(v)@).to_multiset() == entry_views(old(v)@).to_multiset().insert(entry_view(x)),
        (forall|a: int, b: int| 0 <= a < b < old(v)@.len() ==> lex_le(#[trigger] old(v)@[a].name@, #[trigger] old(v)@[b].name@))
            ==> forall|a: int, b: int| 0 <= a < b < final(v)@.len() ==> lex_le(#[trigger] final(v)@[a].name@, #[trigger] final(v)@[b].name@),
{
    let ghost s0 = v@;
    let mut j: usize = 0;
    while j < v.len() && lex_le_exec(chars_of(v[j].name.as_str()).as_slice(), chars_of(x.name.as_str()).as_slice())
        invariant
            j <= v@.len(),
            s0 == v@,
            forall|k: int| 0 <= k < j ==> lex_le(#[trigger] v@[k].name@, x.name@),
        decreases v@.len() - j,
    {
        j = j + 1;
    }
    proof {
        if j < s0.len() {
            crate::scan::lemma_lex_total(s0[j as int].name@, x.name@);
        }
    }
    let ghost xv = x;
    v.insert(j, x);
    proof {
        let n = v@;
        assert(entry_views(n) =~= entry_views(s0).insert(j as int, entry_view(xv)));
        vstd::seq_lib::to_multiset_insert(entry_views(s0), j as int, entry_view(xv));
        if forall|a: int, b: int| 0 <= a < b < s0.len() ==> lex_le(#[trigger] s0[a].name@, #[trigger] s0[b].name@) {
            assert forall|a: int, b: int| 0 <= a < b < n.len() implies lex_le(#[trigger] n[a].name@, #[trigger] n[b].name@) by {
                if b < j {
                    assert(n[a] == s0[a] && n[b] == s0[b]);
                } else if b == j {
                    assert(n[a] == s0[a]);
                } else if a == j {
                    assert(n[b] == s0[b - 1]);
                    if b - 1 > j {
                        crate::scan::lemma_lex_transitive(xv.name@, s0[j as int].name@, s0[b - 1].name@);
                    }
                } else if a < j {
                    assert(n[a] == s0[a] && n[b] == s0[b - 1]);
                } else {
                    assert(n[a] == s0[a - 1] && n[b] == s0[b - 1]);
                }
            }
        }
    }
}

/// Serialises each table, names the pack by its tables and lists the
/// manifest entries in name order. The first table whose rows are not in
/// strictly ascending key order, or whose data outgrows 32-bit offsets, is
/// refused as serialising it refuses.
pub fn assemble_pack(tables: Vec<BuildTable>) -> (r: Result<AssembledPack, TableError>)
    requires
        forall|i: int| 0 <= i < tables@.len() ==> (first_unsorted(row_views((#[trigger] tables@[i]).rows@), 0) is None
            ==> encodable_size(row_views(tables@[i].rows@))),
        forall|i: int| 0 <= i < tables@.len() ==> (#[trigger] tables@[i]).rows@.len() <= u32::MAX,
    ensures
        match first_refused(tables@, tables@.len() as int) {
            Some(i) => r matches Err(e) && refusal_of(tables@[i], e),
            None => r matches Ok(p) && assembled(tables@, p),
        },
{
    let ghost ts = tables@;
    let mut out: Vec<(String, Vec<u8>)> = Vec::new();
    let mut entries: Vec<TableEntry> = Vec::new();
    let mut i: usize = 0;
    proof {
        broadcast use vstd::seq_lib::group_to_multiset_ensures;
        assert(entry_views(entries@) =~= Seq::empty());
        assert(ts.take(0).map_values(|t: BuildTable| expected_entry(t)) =~= Seq::empty());
    }
    while i < tables.len()
        invariant
            ts == tables@,
            i <= ts.len(),
            forall|k: int| 0 <= k < ts.len() ==> (first_unsorted(row_views((#[trigger] ts[k]).rows@), 0) is None
                ==> encodable_size(row_views(ts[k].rows@))),
            forall|k: int| 0 <= k < ts.len() ==> (#[trigger] ts[k]).rows@.len() <= u32::MAX,
            first_refused(ts, i as int) is None,
            out@.len() == i,
            forall|k: int| 0 <= k < i ==> (#[trigger] out@[k]).0@ == ts[k].name@ && out@[k].1@ == build_table_bytes(ts[k]),
            forall|a: int, b: int| 0 <= a < b < entries@.len() ==> lex_le(#[trigger] entries@[a].name@, #[trigger] entries@[b].name@),
            entry_views(entries@).to_multiset() == ts.take(i as int).map_values(|t: BuildTable| expected_entry(t)).to_multiset(),
        decreases ts.len() - i,
    {
        let t = &tables[i];
        let bytes = match encode(t.row_type, t.rows.as_slice()) {
            Ok(b) => b,
            Err(e) => {
                proof {
                    assert(first_refused(ts, i + 1) == Some(i as int));
                    lemma_refused_stays(ts, i + 1, ts.len() as int);
                }
                return Err(e);
            },
        };
        proof {
            assert(!table_refused(ts[i as int]));
            assert(first_refused(ts, i + 1) is None);
        }
        let name = string_of(chars_of(t.name.as_str()).as_slice());
        let mut file: Vec<char> = chars_of("tables/");
        push_str(&mut file, t.name.as_str());
        push_str(&mut file, ".sptbl");
        let digest = digest_hex_vec(bytes.as_slice());
        let entry = TableEntry {
            name: string_of(chars_of(t.name.as_str()).as_slice()),
            file: string_of(file.as_slice()),
            row_type: string_of(chars_of(t.row_type_name.as_str()).as_slice()),
            rows: t.rows.len() as u32,
            bytes: bytes.len() as u64,
            blake3: string_of(digest.as_slice()),
        };
        assert(entry_view(entry) == expected_entry(ts[i as int]));
        let ghost before = entry_views(entries@).to_multiset();
        insert_table_entry(&mut entries, entry);
        proof {
            assert(ts.take(i + 1).map_values(|t: BuildTable| expected_entry(t))
                =~= ts.take(i as int).map_values(|t: BuildTable| expected_entry(t)).push(expected_entry(ts[i as int])));
            vstd::seq_lib::lemma_seq_union_to_multiset_commutative::<(Seq<char>, Seq<char>, Seq<char>, u32, u64, Seq<char>)>(
                ts.take(i as int).map_values(|t: BuildTable| expected_entry(t)), seq![expected_entry(ts[i as int])]);
            broadcast use vstd::seq_lib::group_to_multiset_ensures;
        }
        let ghost before_out = out@;
        out.push((name, bytes));
        proof {
            assert forall|k: int| 0 <= k < i + 1 implies (#[trigger] out@[k]).0@ == ts[k].name@ && out@[k].1@ == build_table_bytes(ts[k]) by {
                if k < i {
                    assert(out@[k] == before_out[k]);
                }
            }
        }
        i = i + 1;
    }
    assert(ts.take(i as int) =~= ts);
    let id = pack_id(out.as_slice());
    Ok(AssembledPack { tables: out, entries, pack_id: id })
}

} // verus!
