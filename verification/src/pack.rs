//! The pack manifest, the definition of `pack_id`, and the checks a reader
//! makes before it trusts a pack.

use vstd::prelude::*;
use vstd::utf8::encode_utf8;
use vstd::string::StrSliceExecFns;
use crate::bytes::{le32, le64, push_u32, push_u64, push_bytes};
use crate::digest::{digest_hex, digest_hex_vec};
use crate::scan::{lex_le, lex_le_exec, text_views};
use crate::table::{TableView, TableError, check_table, validate, table_error_text};
use crate::text::{chars_of, string_of, eq_str, push_str, push_chars, push_decimal, decimal};

verus! {

/// Format version of the pack itself; a reader rejects any other value.
pub const SCHEMA_VERSION: u32 = 2;

/// The hand-off of a pack: what it holds and the digest a handshake compares.
#[derive(Debug)]
pub struct Manifest {
    pub schema_version: u32,
    pub ruleset: String,
    pub zone: String,
    pub pack_id: String,
    pub builder: Builder,
    pub source: Source,
    pub keep_extra: bool,
    pub contracts: Contracts,
    pub tables: Vec<TableEntry>,
}

#[derive(Debug)]
pub struct Contracts {
    /// BLAKE3-256 of the canonical bag-layout catalog.
    pub bag_layout_catalog_blake3: String,
}

#[derive(Debug)]
pub struct Builder {
    pub name: String,
    pub version: String,
}

#[derive(Debug)]
pub struct Source {
    pub repo: String,
    pub commit: String,
    pub overlays: Vec<String>,
}

#[derive(Debug)]
pub struct TableEntry {
    pub name: String,
    pub file: String,
    pub row_type: String,
    pub rows: u32,
    pub bytes: u64,
    pub blake3: String,
}

// ----- pack_id ----------------------------------------------------------------

pub open spec fn named_views(v: Seq<(String, Vec<u8>)>) -> Seq<(Seq<char>, Seq<u8>)> {
    v.map_values(|t: (String, Vec<u8>)| (t.0@, t.1@))
}

/// `s` with `x` inserted after every entry whose name does not sort after
/// `x`'s: one step of a stable sort by name.
pub open spec fn insert_by_name(s: Seq<(Seq<char>, Seq<u8>)>, x: (Seq<char>, Seq<u8>)) -> Seq<(Seq<char>, Seq<u8>)>
    decreases s.len(),
{
    if s.len() == 0 {
        seq![x]
    } else if lex_le(s.last().0, x.0) {
        s.push(x)
    } else {
        insert_by_name(s.drop_last(), x).push(s.last())
    }
}

/// The tables in ascending name order, tables of one name in input order.
pub open spec fn sorted_by_name(s: Seq<(Seq<char>, Seq<u8>)>) -> Seq<(Seq<char>, Seq<u8>)>
    decreases s.len(),
{
    if s.len() == 0 {
        s
    } else {
        insert_by_name(sorted_by_name(s.drop_last()), s.last())
    }
}

/// Each table as its name's byte length (32 bits), its name's UTF-8 bytes,
/// its byte length (64 bits) and its bytes, one after another.
pub open spec fn frame(s: Seq<(Seq<char>, Seq<u8>)>) -> Seq<u8>
    decreases s.len(),
{
    if s.len() == 0 {
        Seq::empty()
    } else {
        let name = encode_utf8(s.last().0);
        frame(s.drop_last()) + le32(name.len()) + name + le64(s.last().1.len()) + s.last().1
    }
}

/// BLAKE3-256 over the framed tables in name order, in lowercase hex. The
/// manifest is not an input, so a builder bump with identical tables keeps
/// the id.
pub open spec fn pack_id_of(tables: Seq<(Seq<char>, Seq<u8>)>) -> Seq<char> {
    digest_hex(frame(sorted_by_name(tables)))
}

/// No two tables share a name.
pub open spec fn distinct_names(s: Seq<(Seq<char>, Seq<u8>)>) -> bool {
    forall|i: int, j: int| 0 <= i < s.len() && 0 <= j < s.len() && i != j ==> (#[trigger] s[i]).0 != (#[trigger] s[j]).0
}

/// Names never decrease along `s`.
pub open spec fn names_ascending(s: Seq<(Seq<char>, Seq<u8>)>) -> bool {
    forall|i: int, j: int| 0 <= i < j < s.len() ==> lex_le((#[trigger] s[i]).0, (#[trigger] s[j]).0)
}

/// Inserting by name into an ascending list puts `x` after the entries
/// whose names do not sort after it and before the rest.
proof fn lemma_insert_shape(t: Seq<(Seq<char>, Seq<u8>)>, x: (Seq<char>, Seq<u8>)) -> (j: int)
    requires
        names_ascending(t),
    ensures
        0 <= j <= t.len(),
        insert_by_name(t, x) == t.take(j).push(x) + t.skip(j),
        forall|k: int| 0 <= k < j ==> lex_le((#[trigger] t[k]).0, x.0),
        forall|k: int| j <= k < t.len() ==> !lex_le((#[trigger] t[k]).0, x.0),
    decreases t.len(),
{
    if t.len() == 0 {
        assert(t.take(0).push(x) + t.skip(0) =~= seq![x]);
        0
    } else if lex_le(t.last().0, x.0) {
        let n = t.len() as int;
        assert(t.take(n).push(x) + t.skip(n) =~= t.push(x));
        assert forall|k: int| 0 <= k < n implies lex_le((#[trigger] t[k]).0, x.0) by {
            if k < n - 1 {
                crate::scan::lemma_lex_transitive(t[k].0, t[n - 1].0, x.0);
            }
        }
        n
    } else {
        let p = t.drop_last();
        assert forall|a: int, b: int| 0 <= a < b < p.len() implies lex_le((#[trigger] p[a]).0, (#[trigger] p[b]).0) by {
            assert(p[a] == t[a] && p[b] == t[b]);
        }
        let j = lemma_insert_shape(p, x);
        assert(p.take(j) =~= t.take(j));
        assert((p.take(j).push(x) + p.skip(j)).push(t.last()) =~= t.take(j).push(x) + t.skip(j));
        assert forall|k: int| j <= k < t.len() implies !lex_le((#[trigger] t[k]).0, x.0) by {
            if k < t.len() - 1 {
                assert(t[k] == p[k]);
            }
        }
        assert forall|k: int| 0 <= k < j implies lex_le((#[trigger] t[k]).0, x.0) by {
            assert(t[k] == p[k]);
        }
        j
    }
}

/// Sorting by name keeps the entries, orders them by name, and keeps names
/// distinct when they were.
proof fn lemma_sorted_props(s: Seq<(Seq<char>, Seq<u8>)>)
    ensures
        sorted_by_name(s).len() == s.len(),
        forall|y: (Seq<char>, Seq<u8>)| #[trigger] sorted_by_name(s).contains(y) <==> s.contains(y),
        names_ascending(sorted_by_name(s)),
        distinct_names(s) ==> distinct_names(sorted_by_name(s)),
    decreases s.len(),
{
    if s.len() > 0 {
        let p = s.drop_last();
        let x = s.last();
        lemma_sorted_props(p);
        let t = sorted_by_name(p);
        let j = lemma_insert_shape(t, x);
        let u = sorted_by_name(s);
        assert(u == t.take(j).push(x) + t.skip(j));
        assert forall|i: int| 0 <= i < u.len() implies #[trigger] u[i] == (if i < j { t[i] } else if i == j { x } else { t[i - 1] }) by {}
        assert forall|y: (Seq<char>, Seq<u8>)| #[trigger] u.contains(y) <==> s.contains(y) by {
            if u.contains(y) {
                let i = choose|i: int| 0 <= i < u.len() && u[i] == y;
                if i == j {
                    assert(s[s.len() - 1] == y);
                } else {
                    let k = if i < j { i } else { i - 1 };
                    assert(t[k] == y);
                    assert(t.contains(y));
                    assert(p.contains(y));
                    let m = choose|m: int| 0 <= m < p.len() && p[m] == y;
                    assert(s[m] == y);
                }
            }
            if s.contains(y) {
                let m = choose|m: int| 0 <= m < s.len() && s[m] == y;
                if m == s.len() - 1 {
                    assert(u[j] == y);
                } else {
                    assert(p[m] == y);
                    assert(p.contains(y));
                    assert(t.contains(y));
                    let k = choose|k: int| 0 <= k < t.len() && t[k] == y;
                    if k < j {
                        assert(u[k] == y);
                    } else {
                        assert(u[k + 1] == y);
                    }
                }
            }
        }
        assert forall|a: int, b: int| 0 <= a < b < u.len() implies lex_le((#[trigger] u[a]).0, (#[trigger] u[b]).0) by {
            if b == j {
                assert(u[a] == t[a]);
            } else if a == j {
                assert(u[b] == t[b - 1]);
                crate::scan::lemma_lex_total(t[b - 1].0, x.0);
            } else {
                let ka = if a < j { a } else { a - 1 };
                let kb = if b < j { b } else { b - 1 };
                assert(u[a] == t[ka] && u[b] == t[kb]);
                if ka == kb {
                    crate::scan::lemma_lex_total(t[ka].0, t[ka].0);
                }
            }
        }
        if distinct_names(s) {
            assert forall|a: int, b: int| 0 <= a < p.len() && 0 <= b < p.len() && a != b implies (#[trigger] p[a]).0 != (#[trigger] p[b]).0 by {
                assert(p[a] == s[a] && p[b] == s[b]);
            }
            assert forall|a: int, b: int| 0 <= a < u.len() && 0 <= b < u.len() && a != b implies (#[trigger] u[a]).0 != (#[trigger] u[b]).0 by {
                if a == j || b == j {
                    let o = if a == j { b } else { a };
                    let k = if o < j { o } else { o - 1 };
                    assert(u[o] == t[k]);
                    assert(t.contains(t[k]));
                    assert(p.contains(t[k]));
                    let m = choose|m: int| 0 <= m < p.len() && p[m] == t[k];
                    assert(s[m] == t[k]);
                    assert(s[s.len() - 1] == x);
                } else {
                    let ka = if a < j { a } else { a - 1 };
                    let kb = if b < j { b } else { b - 1 };
                    assert(u[a] == t[ka] && u[b] == t[kb]);
                }
            }
        }
    }
}

/// Two lists ordered strictly by name that hold the same entries are the
/// same list.
proof fn lemma_sorted_unique(u: Seq<(Seq<char>, Seq<u8>)>, v: Seq<(Seq<char>, Seq<u8>)>)
    requires
        names_ascending(u),
        names_ascending(v),
        distinct_names(u),
        distinct_names(v),
        forall|y: (Seq<char>, Seq<u8>)| #[trigger] u.contains(y) <==> v.contains(y),
    ensures
        u == v,
    decreases u.len(),
{
    if u.len() == 0 {
        if v.len() > 0 {
            assert(v.contains(v[0]));
            assert(u.contains(v[0]));
            assert(false);
        }
        assert(u =~= v);
    } else {
        assert(u.contains(u.last()));
        assert(v.contains(u.last()));
        assert(v.len() > 0);
        assert(v.contains(v.last()));
        assert(u.contains(v.last()));
        let k = choose|k: int| 0 <= k < v.len() && v[k] == u.last();
        let m = choose|m: int| 0 <= m < u.len() && u[m] == v.last();
        if k < v.len() - 1 {
            assert(lex_le(v[k].0, v[v.len() - 1].0));
            assert(v[k].0 != v[v.len() - 1].0);
            if m < u.len() - 1 {
                assert(lex_le(u[m].0, u[u.len() - 1].0));
                crate::scan::lemma_lex_antisym(v[k].0, v[v.len() - 1].0);
            } else {
                assert(v[k] == v[v.len() - 1]);
            }
            assert(false);
        }
        assert(v.last() == u.last());
        let up = u.drop_last();
        let vp = v.drop_last();
        assert forall|a: int, b: int| 0 <= a < b < up.len() implies lex_le((#[trigger] up[a]).0, (#[trigger] up[b]).0) by {
            assert(up[a] == u[a] && up[b] == u[b]);
        }
        assert forall|a: int, b: int| 0 <= a < b < vp.len() implies lex_le((#[trigger] vp[a]).0, (#[trigger] vp[b]).0) by {
            assert(vp[a] == v[a] && vp[b] == v[b]);
        }
        assert forall|a: int, b: int| 0 <= a < up.len() && 0 <= b < up.len() && a != b implies (#[trigger] up[a]).0 != (#[trigger] up[b]).0 by {
            assert(up[a] == u[a] && up[b] == u[b]);
        }
        assert forall|a: int, b: int| 0 <= a < vp.len() && 0 <= b < vp.len() && a != b implies (#[trigger] vp[a]).0 != (#[trigger] vp[b]).0 by {
            assert(vp[a] == v[a] && vp[b] == v[b]);
        }
        assert forall|y: (Seq<char>, Seq<u8>)| #[trigger] up.contains(y) <==> vp.contains(y) by {
            if up.contains(y) {
                let i = choose|i: int| 0 <= i < up.len() && up[i] == y;
                assert(u[i] == y);
                assert(u.contains(y));
                assert(v.contains(y));
                let w = choose|w: int| 0 <= w < v.len() && v[w] == y;
                if w == v.len() - 1 {
                    assert(u[i] == u[u.len() - 1]);
                }
                assert(vp[w] == y);
            }
            if vp.contains(y) {
                let i = choose|i: int| 0 <= i < vp.len() && vp[i] == y;
                assert(v[i] == y);
                assert(v.contains(y));
                assert(u.contains(y));
                let w = choose|w: int| 0 <= w < u.len() && u[w] == y;
                if w == u.len() - 1 {
                    assert(v[i] == v[v.len() - 1]);
                }
                assert(up[w] == y);
            }
        }
        lemma_sorted_unique(up, vp);
        assert(u =~= up.push(u.last()));
        assert(v =~= vp.push(v.last()));
    }
}

/// A pack's id depends on which tables it holds, not on the order they are
/// listed in: two listings of the same tables, each naming every table once,
/// give one id.
pub proof fn lemma_pack_id_ignores_listing_order(a: Seq<(Seq<char>, Seq<u8>)>, b: Seq<(Seq<char>, Seq<u8>)>)
    requires
        distinct_names(a),
        distinct_names(b),
        forall|y: (Seq<char>, Seq<u8>)| #[trigger] a.contains(y) <==> b.contains(y),
    ensures
        pack_id_of(a) == pack_id_of(b),
{
    lemma_sorted_props(a);
    lemma_sorted_props(b);
    let sa = sorted_by_name(a);
    let sb = sorted_by_name(b);
    assert forall|y: (Seq<char>, Seq<u8>)| #[trigger] sa.contains(y) <==> sb.contains(y) by {
        assert(sa.contains(y) == a.contains(y));
        assert(sb.contains(y) == b.contains(y));
    }
    lemma_sorted_unique(sa, sb);
}

fn copy_table(t: &(String, Vec<u8>)) -> (out: (String, Vec<u8>))
    ensures
        (out.0@, out.1@) == (t.0@, t.1@),
{
    let mut bytes: Vec<u8> = Vec::new();
    push_bytes(&mut bytes, t.1.as_slice());
    assert(bytes@ =~= t.1@);
    (string_of(chars_of(t.0.as_str()).as_slice()), bytes)
}

fn insert_table(sorted: &mut Vec<(String, Vec<u8>)>, x: (String, Vec<u8>))
    ensures
        named_views(final(sorted)@) == insert_by_name(named_views(old(sorted)@), (x.0@, x.1@)),
{
    let ghost s0 = named_views(sorted@);
    let ghost xv = (x.0@, x.1@);
    let key = chars_of(x.0.as_str());
    let mut j = sorted.len();
    assert(s0.take(j as int) =~= s0);
    while j > 0 && !lex_le_exec(chars_of(sorted[j - 1].0.as_str()).as_slice(), key.as_slice())
        invariant
            j <= sorted@.len(),
            s0 == named_views(sorted@),
            key@ == x.0@,
            xv == (x.0@, x.1@),
            insert_by_name(s0, xv) == insert_by_name(s0.take(j as int), xv) + s0.skip(j as int),
        decreases j,
    {
        assert(s0.take(j as int).last() == s0[j - 1]);
        assert(s0.take(j as int).drop_last() =~= s0.take(j - 1));
        assert(s0.skip(j - 1) =~= seq![s0[j - 1]] + s0.skip(j as int));
        assert(insert_by_name(s0.take(j - 1), xv).push(s0[j - 1]) + s0.skip(j as int)
            =~= insert_by_name(s0.take(j - 1), xv) + s0.skip(j - 1));
        j = j - 1;
    }
    proof {
        if j > 0 {
            assert(s0.take(j as int).last() == s0[j - 1]);
            assert(insert_by_name(s0.take(j as int), xv) == s0.take(j as int).push(xv));
        } else {
            assert(insert_by_name(s0.take(0), xv) == seq![xv]);
        }
    }
    sorted.insert(j, x);
    assert(named_views(sorted@) =~= s0.take(j as int).push(xv) + s0.skip(j as int));
}

/// The tables sorted by name, stably.
pub fn sort_tables(tables: &[(String, Vec<u8>)]) -> (out: Vec<(String, Vec<u8>)>)
    ensures
        named_views(out@) == sorted_by_name(named_views(tables@)),
{
    let ghost tv = named_views(tables@);
    let mut out: Vec<(String, Vec<u8>)> = Vec::new();
    let mut i: usize = 0;
    assert(tv.take(0) =~= Seq::<(Seq<char>, Seq<u8>)>::empty());
    assert(named_views(out@) =~= Seq::<(Seq<char>, Seq<u8>)>::empty());
    while i < tables.len()
        invariant
            i <= tables@.len(),
            tv == named_views(tables@),
            named_views(out@) == sorted_by_name(tv.take(i as int)),
        decreases tables@.len() - i,
    {
        assert(tv.take(i + 1).drop_last() =~= tv.take(i as int));
        assert(tv.take(i + 1).last() == (tables@[i as int].0@, tables@[i as int].1@));
        let x = copy_table(&tables[i]);
        insert_table(&mut out, x);
        i = i + 1;
    }
    assert(tv.take(tables@.len() as int) =~= tv);
    out
}

/// The low 32 bits of a length, little-endian, as a `u32` cast writes them.
fn push_len32(out: &mut Vec<u8>, n: usize)
    ensures
        final(out)@ == old(out)@ + le32(n as nat),
{
    let v = n as u64;
    out.push((v % 256) as u8);
    out.push(((v / 256) % 256) as u8);
    out.push(((v / 65536) % 256) as u8);
    out.push(((v / 16777216) % 256) as u8);
    assert(final(out)@ =~= old(out)@ + le32(n as nat));
}

fn frame_bytes(sorted: &Vec<(String, Vec<u8>)>) -> (out: Vec<u8>)
    ensures
        out@ == frame(named_views(sorted@)),
{
    let ghost sv = named_views(sorted@);
    let mut out: Vec<u8> = Vec::new();
    let mut i: usize = 0;
    assert(sv.take(0) =~= Seq::<(Seq<char>, Seq<u8>)>::empty());
    while i < sorted.len()
        invariant
            i <= sorted@.len(),
            sv == named_views(sorted@),
            out@ == frame(sv.take(i as int)),
        decreases sorted@.len() - i,
    {
        assert(sv.take(i + 1).drop_last() =~= sv.take(i as int));
        assert(sv.take(i + 1).last() == (sorted@[i as int].0@, sorted@[i as int].1@));
        let name = sorted[i].0.as_str().as_bytes_vec();
        let ghost before = out@;
        push_len32(&mut out, name.len());
        push_bytes(&mut out, name.as_slice());
        push_u64(&mut out, sorted[i].1.len() as u64);
        push_bytes(&mut out, sorted[i].1.as_slice());
        assert(out@ =~= frame(sv.take(i + 1)));
        i = i + 1;
    }
    assert(sv.take(sorted@.len() as int) =~= sv);
    out
}

/// The pack's id: BLAKE3-256 over its tables framed in name order, as 64
/// lowercase hexadecimal digits.
pub fn pack_id(tables: &[(String, Vec<u8>)]) -> (id: String)
    ensures
        id@ == pack_id_of(named_views(tables@)),
        id@.len() == 64,
        crate::text::lower_hex(id@),
{
    let sorted = sort_tables(tables);
    let framed = frame_bytes(&sorted);
    string_of(digest_hex_vec(framed.as_slice()).as_slice())
}

// ----- verification ---------------------------------------------------------------

/// What a pack that passes every check holds.
#[derive(Debug)]
pub struct VerifyReport {
    pub pack_id: String,
    pub ruleset: String,
    pub zone: String,
    pub tables: Vec<(String, u32)>,
}

/// The first rule a pack breaks; every failure names the table and the
/// expectation it broke.
#[derive(Debug)]
pub enum VerifyError {
    SchemaVersion { found: u32 },
    CatalogMismatch { recorded: String, reader: String },
    SizeMismatch { table: String, actual: usize, recorded: u64 },
    DigestMismatch { table: String, digest: String, recorded: String },
    Invalid { table: String, error: TableError },
    UnknownRowType { table: String, row_type_id: i32 },
    RowTypeMismatch { table: String, found: String, recorded: String },
    RowCountMismatch { table: String, found: u32, recorded: u32 },
    Unlisted { relative: String },
    PackIdMismatch { recomputed: String, recorded: String },
}

pub enum Failure {
    SchemaVersion(u32),
    CatalogMismatch(Seq<char>, Seq<char>),
    SizeMismatch(Seq<char>, nat, u64),
    DigestMismatch(Seq<char>, Seq<char>, Seq<char>),
    Invalid(Seq<char>, TableError),
    UnknownRowType(Seq<char>, i32),
    RowTypeMismatch(Seq<char>, Seq<char>, Seq<char>),
    RowCountMismatch(Seq<char>, u32, u32),
    Unlisted(Seq<char>),
    PackIdMismatch(Seq<char>, Seq<char>),
}

pub open spec fn failure_of(e: VerifyError) -> Failure {
    match e {
        VerifyError::SchemaVersion { found } => Failure::SchemaVersion(found),
        VerifyError::CatalogMismatch { recorded, reader } => Failure::CatalogMismatch(recorded@, reader@),
        VerifyError::SizeMismatch { table, actual, recorded } => Failure::SizeMismatch(table@, actual as nat, recorded),
        VerifyError::DigestMismatch { table, digest, recorded } => Failure::DigestMismatch(table@, digest@, recorded@),
        VerifyError::Invalid { table, error } => Failure::Invalid(table@, error),
        VerifyError::UnknownRowType { table, row_type_id } => Failure::UnknownRowType(table@, row_type_id),
        VerifyError::RowTypeMismatch { table, found, recorded } => Failure::RowTypeMismatch(table@, found@, recorded@),
        VerifyError::RowCountMismatch { table, found, recorded } => Failure::RowCountMismatch(table@, found, recorded),
        VerifyError::Unlisted { relative } => Failure::Unlisted(relative@),
        VerifyError::PackIdMismatch { recomputed, recorded } => Failure::PackIdMismatch(recomputed@, recorded@),
    }
}

pub open spec fn row_type_views(v: Seq<(i32, String)>) -> Seq<(i32, Seq<char>)> {
    v.map_values(|r: (i32, String)| (r.0, r.1@))
}

/// The name a row type id has among the known row types.
pub open spec fn row_type_name(known: Seq<(i32, Seq<char>)>, id: i32) -> Option<Seq<char>>
    decreases known.len(),
{
    if known.len() == 0 {
        None
    } else if known[0].0 == id {
        Some(known[0].1)
    } else {
        row_type_name(known.drop_first(), id)
    }
}

/// The first rule one table breaks: its size, its digest, its structure, its
/// row type, or its row count against what the manifest records.
pub open spec fn table_failure(e: TableEntry, bytes: Seq<u8>, known: Seq<(i32, Seq<char>)>) -> Option<Failure> {
    if bytes.len() != e.bytes {
        Some(Failure::SizeMismatch(e.name@, bytes.len(), e.bytes))
    } else if digest_hex(bytes) != e.blake3@ {
        Some(Failure::DigestMismatch(e.name@, digest_hex(bytes), e.blake3@))
    } else {
        match check_table(bytes) {
            Err(err) => Some(Failure::Invalid(e.name@, err)),
            Ok(view) => match row_type_name(known, view.row_type_id) {
                None => Some(Failure::UnknownRowType(e.name@, view.row_type_id)),
                Some(n) => if n != e.row_type@ {
                    Some(Failure::RowTypeMismatch(e.name@, n, e.row_type@))
                } else if view.row_count != e.rows {
                    Some(Failure::RowCountMismatch(e.name@, view.row_count, e.rows))
                } else {
                    None
                },
            },
        }
    }
}

pub open spec fn first_table_failure(es: Seq<TableEntry>, tables: Seq<Seq<u8>>, known: Seq<(i32, Seq<char>)>) -> Option<Failure>
    decreases es.len(),
{
    if es.len() == 0 {
        None
    } else {
        match first_table_failure(es.drop_last(), tables, known) {
            Some(f) => Some(f),
            None => table_failure(es.last(), tables[es.len() - 1], known),
        }
    }
}

proof fn lemma_no_table_failure(es: Seq<TableEntry>, tables: Seq<Seq<u8>>, known: Seq<(i32, Seq<char>)>)
    requires
        first_table_failure(es, tables, known) is None,
    ensures
        forall|i: int| 0 <= i < es.len() ==> table_failure(#[trigger] es[i], tables[i], known) is None,
    decreases es.len(),
{
    if es.len() > 0 {
        lemma_no_table_failure(es.drop_last(), tables, known);
        assert forall|i: int| 0 <= i < es.len() implies table_failure(#[trigger] es[i], tables[i], known) is None by {
            if i < es.len() - 1 {
                assert(es.drop_last()[i] == es[i]);
            }
        }
    }
}

/// A pack that passes verification is of this build's schema version, was
/// built against the reader's catalog, holds every table at the size and
/// digest its manifest records with the row count it records, and carries
/// the pack id its tables' digests give.
pub proof fn lemma_verified_pack_matches_manifest(m: Manifest, catalog: Seq<char>, tables: Seq<Seq<u8>>,
    found: Option<Seq<Seq<char>>>, known: Seq<(i32, Seq<char>)>)
    requires
        verify_failure(m, catalog, tables, found, known) is None,
    ensures
        m.schema_version == SCHEMA_VERSION,
        m.contracts.bag_layout_catalog_blake3@ == catalog,
        forall|i: int| 0 <= i < m.tables@.len() ==> {
            &&& tables[i].len() == (#[trigger] m.tables@[i]).bytes
            &&& digest_hex(tables[i]) == m.tables@[i].blake3@
            &&& check_table(tables[i]) matches Ok(view) && view.row_count == m.tables@[i].rows
        },
        pack_id_of(digest_inputs(m.tables@, tables)) == m.pack_id@,
{
    lemma_no_table_failure(m.tables@, tables, known);
    assert forall|i: int| 0 <= i < m.tables@.len() implies {
        &&& tables[i].len() == (#[trigger] m.tables@[i]).bytes
        &&& digest_hex(tables[i]) == m.tables@[i].blake3@
        &&& check_table(tables[i]) matches Ok(view) && view.row_count == m.tables@[i].rows
    } by {
        assert(table_failure(m.tables@[i], tables[i], known) is None);
    }
}

pub open spec fn file_views(es: Seq<TableEntry>) -> Seq<Seq<char>> {
    es.map_values(|e: TableEntry| e.file@)
}

/// The first file of the tables directory the manifest does not list.
pub open spec fn first_unlisted(found: Seq<Seq<char>>, listed: Seq<Seq<char>>) -> Option<Seq<char>>
    decreases found.len(),
{
    if found.len() == 0 {
        None
    } else if !listed.contains("tables/"@ + found[0]) {
        Some("tables/"@ + found[0])
    } else {
        first_unlisted(found.drop_first(), listed)
    }
}

pub open spec fn digest_inputs(es: Seq<TableEntry>, tables: Seq<Seq<u8>>) -> Seq<(Seq<char>, Seq<u8>)> {
    Seq::new(es.len(), |i: int| (es[i].name@, tables[i]))
}

/// What verifying a pack answers: the schema version, then the bag-layout
/// catalog the pack was compiled against against the reader's own, then each
/// table in manifest order, then the tables directory, then the recomputed
/// pack id.
pub open spec fn verify_failure(m: Manifest, catalog: Seq<char>, tables: Seq<Seq<u8>>, found: Option<Seq<Seq<char>>>, known: Seq<(i32, Seq<char>)>) -> Option<Failure> {
    if m.schema_version != SCHEMA_VERSION {
        Some(Failure::SchemaVersion(m.schema_version))
    } else if m.contracts.bag_layout_catalog_blake3@ != catalog {
        Some(Failure::CatalogMismatch(m.contracts.bag_layout_catalog_blake3@, catalog))
    } else {
        match first_table_failure(m.tables@, tables, known) {
            Some(f) => Some(f),
            None => match (match found { Some(f) => first_unlisted(f, file_views(m.tables@)), None => None }) {
                Some(r) => Some(Failure::Unlisted(r)),
                None => if pack_id_of(digest_inputs(m.tables@, tables)) != m.pack_id@ {
                    Some(Failure::PackIdMismatch(pack_id_of(digest_inputs(m.tables@, tables)), m.pack_id@))
                } else {
                    None
                },
            },
        }
    }
}

fn copy_text(s: &String) -> (out: String)
    ensures
        out@ == s@,
{
    string_of(chars_of(s.as_str()).as_slice())
}

fn row_type_lookup(known: &Vec<(i32, String)>, id: i32) -> (r: Option<String>)
    ensures
        match r {
            Some(n) => row_type_name(row_type_views(known@), id) == Some(n@),
            None => row_type_name(row_type_views(known@), id) is None,
        },
{
    let ghost kv = row_type_views(known@);
    let mut i: usize = 0;
    assert(kv.skip(0) =~= kv);
    while i < known.len()
        invariant
            i <= known@.len(),
            kv == row_type_views(known@),
            row_type_name(kv.skip(i as int), id) == row_type_name(kv, id),
        decreases known@.len() - i,
    {
        assert(kv.skip(i as int)[0] == (known@[i as int].0, known@[i as int].1@));
        assert(kv.skip(i as int).drop_first() =~= kv.skip(i + 1));
        if known[i].0 == id {
            return Some(copy_text(&known[i].1));
        }
        i = i + 1;
    }
    None
}

fn check_one(e: &TableEntry, bytes: &Vec<u8>, known: &Vec<(i32, String)>) -> (r: Result<u32, VerifyError>)
    ensures
        match r {
            Ok(rows) => table_failure(*e, bytes@, row_type_views(known@)) is None && rows == e.rows,
            Err(err) => table_failure(*e, bytes@, row_type_views(known@)) == Some(failure_of(err)),
        },
{
    if bytes.len() as u64 != e.bytes {
        return Err(VerifyError::SizeMismatch { table: copy_text(&e.name), actual: bytes.len(), recorded: e.bytes });
    }
    let digest = string_of(digest_hex_vec(bytes.as_slice()).as_slice());
    if !eq_str(chars_of(digest.as_str()).as_slice(), e.blake3.as_str()) {
        return Err(VerifyError::DigestMismatch { table: copy_text(&e.name), digest, recorded: copy_text(&e.blake3) });
    }
    let view = match validate(bytes.as_slice()) {
        Ok(v) => v,
        Err(error) => return Err(VerifyError::Invalid { table: copy_text(&e.name), error }),
    };
    let name = match row_type_lookup(known, view.row_type_id) {
        Some(n) => n,
        None => return Err(VerifyError::UnknownRowType { table: copy_text(&e.name), row_type_id: view.row_type_id }),
    };
    if !eq_str(chars_of(name.as_str()).as_slice(), e.row_type.as_str()) {
        return Err(VerifyError::RowTypeMismatch { table: copy_text(&e.name), found: name, recorded: copy_text(&e.row_type) });
    }
    if view.row_count != e.rows {
        return Err(VerifyError::RowCountMismatch { table: copy_text(&e.name), found: view.row_count, recorded: e.rows });
    }
    Ok(view.row_count)
}

fn check_tables(entries: &Vec<TableEntry>, tables: &Vec<Vec<u8>>, known: &Vec<(i32, String)>)
    -> (r: Result<(Vec<(String, u32)>, Vec<(String, Vec<u8>)>), VerifyError>)
    requires
        tables@.len() == entries@.len(),
    ensures
        match r {
            Ok((summary, inputs)) => first_table_failure(entries@, tables@.map_values(|t: Vec<u8>| t@), row_type_views(known@)) is None
                && summary@.len() == entries@.len()
                && (forall|k: int| 0 <= k < summary@.len() ==> (#[trigger] summary@[k]).0@ == entries@[k].name@ && summary@[k].1 == entries@[k].rows)
                && named_views(inputs@) == digest_inputs(entries@, tables@.map_values(|t: Vec<u8>| t@)),
            Err(err) => first_table_failure(entries@, tables@.map_values(|t: Vec<u8>| t@), row_type_views(known@)) == Some(failure_of(err)),
        },
{
    let ghost tv = tables@.map_values(|t: Vec<u8>| t@);
    let ghost kv = row_type_views(known@);
    let mut summary: Vec<(String, u32)> = Vec::new();
    let mut inputs: Vec<(String, Vec<u8>)> = Vec::new();
    let mut i: usize = 0;
    assert(entries@.take(0) =~= Seq::<TableEntry>::empty());
    assert(named_views(inputs@) =~= digest_inputs(entries@, tv).take(0));
    while i < entries.len()
        invariant
            i <= entries@.len(),
            tables@.len() == entries@.len(),
            tv == tables@.map_values(|t: Vec<u8>| t@),
            kv == row_type_views(known@),
            first_table_failure(entries@.take(i as int), tv, kv) is None,
            summary@.len() == i,
            forall|k: int| 0 <= k < i ==> (#[trigger] summary@[k]).0@ == entries@[k].name@ && summary@[k].1 == entries@[k].rows,
            named_views(inputs@) == digest_inputs(entries@, tv).take(i as int),
        decreases entries@.len() - i,
    {
        assert(entries@.take(i + 1).drop_last() =~= entries@.take(i as int));
        assert(entries@.take(i + 1).last() == entries@[i as int]);
        assert(tv[i as int] == tables@[i as int]@);
        match check_one(&entries[i], &tables[i], known) {
            Ok(rows) => {
                let ghost prior = summary@;
                summary.push((copy_text(&entries[i].name), rows));
                assert forall|k: int| 0 <= k < i + 1 implies (#[trigger] summary@[k]).0@ == entries@[k].name@ && summary@[k].1 == entries@[k].rows by {
                    if k < i {
                        assert(summary@[k] == prior[k]);
                    }
                }
                let ghost before = named_views(inputs@);
                let mut b: Vec<u8> = Vec::new();
                push_bytes(&mut b, tables[i].as_slice());
                assert(b@ =~= tables@[i as int]@);
                let name = copy_text(&entries[i].name);
                inputs.push((name, b));
                assert(named_views(inputs@) =~= before.push((entries@[i as int].name@, tv[i as int])));
                assert(named_views(inputs@) =~= digest_inputs(entries@, tv).take(i + 1));
            },
            Err(err) => {
                proof { lemma_first_failure_prefix(entries@, tv, kv, i as int); }
                return Err(err);
            },
        }
        i = i + 1;
    }
    assert(entries@.take(entries@.len() as int) =~= entries@);
    assert(digest_inputs(entries@, tv).take(entries@.len() as int) =~= digest_inputs(entries@, tv));
    Ok((summary, inputs))
}

fn unlisted_file(files: &Vec<String>, entries: &Vec<TableEntry>) -> (r: Option<String>)
    ensures
        match r {
            Some(x) => first_unlisted(text_views(files@), file_views(entries@)) == Some(x@),
            None => first_unlisted(text_views(files@), file_views(entries@)) is None,
        },
{
    let ghost ff = text_views(files@);
    let mut j: usize = 0;
    assert(ff.skip(0) =~= ff);
    while j < files.len()
        invariant
            j <= files@.len(),
            ff == text_views(files@),
            first_unlisted(ff.skip(j as int), file_views(entries@)) == first_unlisted(ff, file_views(entries@)),
        decreases files@.len() - j,
    {
        assert(ff.skip(j as int)[0] == files@[j as int]@);
        assert(ff.skip(j as int).drop_first() =~= ff.skip(j + 1));
        let mut relative: Vec<char> = Vec::new();
        push_str(&mut relative, "tables/");
        push_str(&mut relative, files[j].as_str());
        if !is_listed(entries, relative.as_slice()) {
            return Some(string_of(relative.as_slice()));
        }
        j = j + 1;
    }
    None
}

/// Checks a pack whose tables have been read: `catalog` is the BLAKE3 of the
/// reader's own bag-layout catalog, `tables[i]` holds the bytes of the
/// manifest's table `i`, `found` the file names in the tables directory when
/// it exists, and `known` the row types a reader knows.
pub fn verify_pack(manifest: &Manifest, catalog: &str, tables: &Vec<Vec<u8>>, found: Option<&Vec<String>>, known: &Vec<(i32, String)>)
    -> (r: Result<VerifyReport, VerifyError>)
    requires
        tables@.len() == manifest.tables@.len(),
    ensures
        match r {
            Ok(report) => verify_failure(*manifest, catalog@, tables@.map_values(|t: Vec<u8>| t@), match found { Some(f) => Some(text_views(f@)), None => None }, row_type_views(known@)) is None
                && report.pack_id@ == manifest.pack_id@ && report.ruleset@ == manifest.ruleset@ && report.zone@ == manifest.zone@
                && report.tables@.len() == manifest.tables@.len()
                && forall|i: int| 0 <= i < report.tables@.len() ==> (#[trigger] report.tables@[i]).0@ == manifest.tables@[i].name@
                    && report.tables@[i].1 == manifest.tables@[i].rows,
            Err(err) => verify_failure(*manifest, catalog@, tables@.map_values(|t: Vec<u8>| t@), match found { Some(f) => Some(text_views(f@)), None => None }, row_type_views(known@)) == Some(failure_of(err)),
        },
{
    if manifest.schema_version != SCHEMA_VERSION {
        return Err(VerifyError::SchemaVersion { found: manifest.schema_version });
    }
    if !eq_str(chars_of(manifest.contracts.bag_layout_catalog_blake3.as_str()).as_slice(), catalog) {
        return Err(VerifyError::CatalogMismatch {
            recorded: copy_text(&manifest.contracts.bag_layout_catalog_blake3),
            reader: string_of(chars_of(catalog).as_slice()),
        });
    }
    let (summary, inputs) = match check_tables(&manifest.tables, tables, known) {
        Ok(x) => x,
        Err(err) => return Err(err),
    };
    match found {
        Some(files) => match unlisted_file(files, &manifest.tables) {
            Some(relative) => return Err(VerifyError::Unlisted { relative }),
            None => {},
        },
        None => {},
    }
    let recomputed = pack_id(inputs.as_slice());
    if !eq_str(chars_of(recomputed.as_str()).as_slice(), manifest.pack_id.as_str()) {
        return Err(VerifyError::PackIdMismatch { recomputed, recorded: copy_text(&manifest.pack_id) });
    }
    Ok(VerifyReport {
        pack_id: copy_text(&manifest.pack_id),
        ruleset: copy_text(&manifest.ruleset),
        zone: copy_text(&manifest.zone),
        tables: summary,
    })
}

fn is_listed(entries: &Vec<TableEntry>, relative: &[char]) -> (r: bool)
    ensures
        r == file_views(entries@).contains(relative@),
{
    let mut k: usize = 0;
    while k < entries.len()
        invariant
            k <= entries@.len(),
            forall|w: int| 0 <= w < k ==> (#[trigger] file_views(entries@)[w]) != relative@,
        decreases entries@.len() - k,
    {
        assert(file_views(entries@)[k as int] == entries@[k as int].file@);
        if eq_str(relative, entries[k].file.as_str()) {
            return true;
        }
        k = k + 1;
    }
    false
}

proof fn lemma_first_failure_prefix(es: Seq<TableEntry>, tables: Seq<Seq<u8>>, known: Seq<(i32, Seq<char>)>, i: int)
    requires
        0 <= i < es.len(),
        first_table_failure(es.take(i), tables, known) is None,
        table_failure(es[i], tables[i], known) is Some,
    ensures
        first_table_failure(es, tables, known) == table_failure(es[i], tables[i], known),
    decreases es.len(),
{
    if i < es.len() - 1 {
        assert(es.drop_last().take(i) =~= es.take(i));
        assert(es.drop_last()[i] == es[i]);
        lemma_first_failure_prefix(es.drop_last(), tables, known, i);
    } else {
        assert(es.drop_last() =~= es.take(i));
    }
}

pub open spec fn signed_decimal(v: int) -> Seq<char> {
    if v < 0 { "-"@ + decimal((-v) as nat) } else { decimal(v as nat) }
}

pub open spec fn verify_error_text(e: VerifyError) -> Seq<char> {
    match e {
        VerifyError::SchemaVersion { found } => "pack schema_version is "@ + decimal(found as nat)
            + ", and this build only reads version 2"@,
        VerifyError::CatalogMismatch { recorded, reader } => "bag-layout catalog contract mismatch: manifest records "@
            + recorded@ + ", this reader's catalog hashes to "@ + reader@,
        VerifyError::SizeMismatch { table, actual, recorded } => "table "@ + table@ + " is "@ + decimal(actual as nat)
            + " bytes, but the manifest records "@ + decimal(recorded as nat),
        VerifyError::DigestMismatch { table, digest, recorded } => "table "@ + table@ + " digest mismatch: table bytes hash to "@
            + digest@ + ", manifest records "@ + recorded@,
        VerifyError::Invalid { table, error } => "validate table "@ + table@ + ": "@ + table_error_text(error),
        VerifyError::UnknownRowType { table, row_type_id } => "table "@ + table@ + " declares unknown row_type_id "@
            + signed_decimal(row_type_id as int),
        VerifyError::RowTypeMismatch { table, found, recorded } => "table "@ + table@ + " holds "@ + found@
            + " rows but the manifest records "@ + recorded@,
        VerifyError::RowCountMismatch { table, found, recorded } => "table "@ + table@ + " holds "@ + decimal(found as nat)
            + " rows but the manifest records "@ + decimal(recorded as nat),
        VerifyError::Unlisted { relative } => "pack holds "@ + relative@ + ", which the manifest does not list"@,
        VerifyError::PackIdMismatch { recomputed, recorded } => "pack_id mismatch: table bytes hash to "@ + recomputed@
            + ", manifest records "@ + recorded@,
    }
}

impl VerifyError {
    pub fn message(&self) -> (r: String)
        ensures
            r@ == verify_error_text(*self),
    {
        let mut out: Vec<char> = Vec::new();
        match self {
            VerifyError::SchemaVersion { found } => {
                push_str(&mut out, "pack schema_version is ");
                push_decimal(&mut out, *found as u64);
                push_str(&mut out, ", and this build only reads version 2");
            },
            VerifyError::CatalogMismatch { recorded, reader } => {
                push_str(&mut out, "bag-layout catalog contract mismatch: manifest records ");
                push_str(&mut out, recorded.as_str());
                push_str(&mut out, ", this reader's catalog hashes to ");
                push_str(&mut out, reader.as_str());
            },
            VerifyError::SizeMismatch { table, actual, recorded } => {
                push_str(&mut out, "table ");
                push_str(&mut out, table.as_str());
                push_str(&mut out, " is ");
                push_decimal(&mut out, *actual as u64);
                push_str(&mut out, " bytes, but the manifest records ");
                push_decimal(&mut out, *recorded);
            },
            VerifyError::DigestMismatch { table, digest, recorded } => {
                push_str(&mut out, "table ");
                push_str(&mut out, table.as_str());
                push_str(&mut out, " digest mismatch: table bytes hash to ");
                push_str(&mut out, digest.as_str());
                push_str(&mut out, ", manifest records ");
                push_str(&mut out, recorded.as_str());
            },
            VerifyError::Invalid { table, error } => {
                push_str(&mut out, "validate table ");
                push_str(&mut out, table.as_str());
                push_str(&mut out, ": ");
                let m = error.message();
                push_str(&mut out, m.as_str());
            },
            VerifyError::UnknownRowType { table, row_type_id } => {
                push_str(&mut out, "table ");
                push_str(&mut out, table.as_str());
                push_str(&mut out, " declares unknown row_type_id ");
                if *row_type_id < 0 {
                    push_str(&mut out, "-");
                    let magnitude: u64 = (-(*row_type_id as i64)) as u64;
                    push_decimal(&mut out, magnitude);
                } else {
                    push_decimal(&mut out, *row_type_id as u64);
                }
            },
            VerifyError::RowTypeMismatch { table, found, recorded } => {
                push_str(&mut out, "table ");
                push_str(&mut out, table.as_str());
                push_str(&mut out, " holds ");
                push_str(&mut out, found.as_str());
                push_str(&mut out, " rows but the manifest records ");
                push_str(&mut out, recorded.as_str());
            },
            VerifyError::RowCountMismatch { table, found, recorded } => {
                push_str(&mut out, "table ");
                push_str(&mut out, table.as_str());
                push_str(&mut out, " holds ");
                push_decimal(&mut out, *found as u64);
                push_str(&mut out, " rows but the manifest records ");
                push_decimal(&mut out, *recorded as u64);
            },
            VerifyError::Unlisted { relative } => {
                push_str(&mut out, "pack holds ");
                push_str(&mut out, relative.as_str());
                push_str(&mut out, ", which the manifest does not list");
            },
            VerifyError::PackIdMismatch { recomputed, recorded } => {
                push_str(&mut out, "pack_id mismatch: table bytes hash to ");
                push_str(&mut out, recomputed.as_str());
                push_str(&mut out, ", manifest records ");
                push_str(&mut out, recorded.as_str());
            },
        }
        assert(out@ =~= verify_error_text(*self));
        string_of(out.as_slice())
    }
}

} // verus!
