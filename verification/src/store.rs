//! The content-addressed asset store: labels, where manifests and blobs
//! live, which files a re-ingest may take from the previous manifest, and the
//! arithmetic of the store's statistics and lookups.

use vstd::prelude::*;
use crate::reach::{ascending, id_set, insert_id};
use crate::scan::{join_text, join_path, comps_of, comps_vec, lex_le, lex_le_exec, text_views};
use crate::text::{
    chars_of, string_of, eq_str, seq_eq, copy_chars, push_str, push_chars, split, split_vec, views_of,
    is_alnum, char_is_alnum, is_hex_digit, char_is_hex_digit, lower, lower_vec, replace_char,
    replace_char_vec, join, join_vec, lemma_split_nonempty, has_prefix, starts_with_str, slice_range,
};

verus! {

/// The first line of an asset manifest.
#[derive(Debug, Clone, PartialEq, Eq)]
pub struct ManifestHeader {
    pub label: String,
    pub root: String,
    pub created: String,
    pub tool_version: String,
}

/// One recorded file: its logical path, size, digest and modification time.
#[derive(Debug, Clone, PartialEq, Eq)]
pub struct ManifestEntry {
    pub path: String,
    pub size: u64,
    pub blake3: String,
    pub mtime: i64,
}

/// A file the ingest could not record, and why.
#[derive(Debug, Clone, PartialEq, Eq)]
pub struct ManifestError {
    pub path: String,
    pub operation: String,
    pub message: String,
}

/// What one ingest run did.
#[derive(Debug, Clone, PartialEq, Eq)]
pub struct ManifestRunReport {
    pub started: String,
    pub finished: String,
    pub discovered_files: u64,
    pub recorded_files: u64,
    pub cache_hits: u64,
    pub new_blobs: u64,
    pub existing_blobs: u64,
    pub bytes_read: u64,
    pub errors: Vec<ManifestError>,
}

/// One label's manifest.
#[derive(Debug, Clone, PartialEq, Eq)]
pub struct Manifest {
    pub header: ManifestHeader,
    pub files: Vec<ManifestEntry>,
    pub run_report: ManifestRunReport,
}

// ----- labels and paths ------------------------------------------------------------

/// A label character: an ASCII letter or digit, `.`, `_` or `-`.
pub open spec fn label_char(c: char) -> bool {
    is_alnum(c) || c == '.' || c == '_' || c == '-'
}

pub open spec fn good_part(p: Seq<char>) -> bool {
    p.len() > 0 && p != "."@ && p != ".."@ && forall|i: int| 0 <= i < p.len() ==> label_char(#[trigger] p[i])
}

/// A label: slash-separated non-empty parts of label characters, none of
/// them `.` or `..`.
pub open spec fn valid_label(label: Seq<char>) -> bool {
    label.len() > 0 && forall|i: int| 0 <= i < split(label, '/').len() ==> good_part(#[trigger] split(label, '/')[i])
}

/// Why a label was refused.
#[derive(Debug, Clone, PartialEq, Eq)]
pub enum LabelError {
    Empty,
    Invalid { label: String },
}

pub open spec fn label_error_text(e: LabelError) -> Seq<char> {
    match e {
        LabelError::Empty => "label cannot be empty"@,
        LabelError::Invalid { label } => "invalid label \""@ + label@
            + "\"; use slash-separated ASCII letters, digits, '.', '_', or '-'"@,
    }
}

impl LabelError {
    pub fn message(&self) -> (r: String)
        ensures
            r@ == label_error_text(*self),
    {
        let mut out: Vec<char> = Vec::new();
        match self {
            LabelError::Empty => push_str(&mut out, "label cannot be empty"),
            LabelError::Invalid { label } => {
                push_str(&mut out, "invalid label \"");
                push_str(&mut out, label.as_str());
                push_str(&mut out, "\"; use slash-separated ASCII letters, digits, '.', '_', or '-'");
            },
        }
        assert(out@ =~= label_error_text(*self));
        string_of(out.as_slice())
    }
}

fn part_ok(p: &[char]) -> (r: bool)
    ensures
        r == good_part(p@),
{
    if p.len() == 0 || eq_str(p, ".") || eq_str(p, "..") {
        return false;
    }
    let mut i: usize = 0;
    while i < p.len()
        invariant
            i <= p@.len(),
            forall|k: int| 0 <= k < i ==> label_char(#[trigger] p@[k]),
        decreases p@.len() - i,
    {
        let c = p[i];
        if !(char_is_alnum(c) || c == '.' || c == '_' || c == '-') {
            return false;
        }
        i = i + 1;
    }
    true
}

/// Accepts exactly the labels `valid_label` describes.
pub fn validate_label(label: &str) -> (r: Result<(), LabelError>)
    ensures
        label@.len() == 0 ==> r == Err::<(), LabelError>(LabelError::Empty),
        label@.len() > 0 && valid_label(label@) ==> r is Ok,
        label@.len() > 0 && !valid_label(label@) ==> (r matches Err(LabelError::Invalid { label: l }) && l@ == label@),
{
    let chars = chars_of(label);
    if chars.len() == 0 {
        return Err(LabelError::Empty);
    }
    let parts = split_vec(chars.as_slice(), '/');
    let mut i: usize = 0;
    while i < parts.len()
        invariant
            i <= parts@.len(),
            chars@ == label@,
            chars@.len() > 0,
            parts@.len() == split(chars@, '/').len(),
            forall|k: int| 0 <= k < parts@.len() ==> #[trigger] parts@[k]@ == split(chars@, '/')[k],
            forall|k: int| 0 <= k < i ==> good_part(#[trigger] split(chars@, '/')[k]),
        decreases parts@.len() - i,
    {
        assert(parts@[i as int]@ == split(chars@, '/')[i as int]);
        if !part_ok(parts[i].as_slice()) {
            return Err(LabelError::Invalid { label: string_of(chars.as_slice()) });
        }
        i = i + 1;
    }
    Ok(())
}

/// A BLAKE3 digest in hex: sixty-four ASCII hex digits.
pub open spec fn is_blake3_text(v: Seq<char>) -> bool {
    v.len() == 64 && forall|i: int| 0 <= i < v.len() ==> is_hex_digit(#[trigger] v[i])
}

pub fn is_blake3(value: &str) -> (r: bool)
    ensures
        r == is_blake3_text(value@),
{
    let v = chars_of(value);
    if v.len() != 64 {
        return false;
    }
    let mut i: usize = 0;
    while i < v.len()
        invariant
            i <= v@.len(),
            v@ == value@,
            v@.len() == 64,
            forall|k: int| 0 <= k < i ==> is_hex_digit(#[trigger] v@[k]),
        decreases v@.len() - i,
    {
        if !char_is_hex_digit(v[i]) {
            return false;
        }
        i = i + 1;
    }
    true
}

/// `base` with each of `parts` pushed as a path component.
pub open spec fn pushed(base: Seq<char>, parts: Seq<Seq<char>>) -> Seq<char>
    decreases parts.len(),
{
    if parts.len() == 0 { base } else { join_text(pushed(base, parts.drop_last()), parts.last()) }
}

/// Where a label's manifest lives: each part of the label one component
/// under `manifests`, with `.jsonl` appended to the last.
pub open spec fn manifest_path_of(store_root: Seq<char>, label: Seq<char>) -> Seq<char> {
    pushed(join_text(store_root, "manifests"@), split(label, '/')) + ".jsonl"@
}

pub fn manifest_path(store_root: &str, label: &str) -> (out: String)
    ensures
        out@ == manifest_path_of(store_root@, label@),
{
    let mut path = join_path(store_root, "manifests");
    let chars = chars_of(label);
    let parts = split_vec(chars.as_slice(), '/');
    let ghost pv = views_of(parts@);
    assert(pv =~= split(label@, '/'));
    let ghost base = path@;
    let mut i: usize = 0;
    assert(pv.take(0) =~= Seq::<Seq<char>>::empty());
    while i < parts.len()
        invariant
            i <= parts@.len(),
            pv == views_of(parts@),
            path@ == pushed(base, pv.take(i as int)),
        decreases parts@.len() - i,
    {
        assert(pv.take(i + 1).drop_last() =~= pv.take(i as int));
        assert(pv.take(i + 1).last() == parts@[i as int]@);
        let part = string_of(parts[i].as_slice());
        path = join_path(path.as_str(), part.as_str());
        i = i + 1;
    }
    assert(pv.take(parts@.len() as int) =~= pv);
    let mut out = chars_of(path.as_str());
    push_str(&mut out, ".jsonl");
    string_of(out.as_slice())
}

/// Where a blob lives: under `blobs`, in a directory named by the digest's
/// first two characters.
pub open spec fn blob_path_of(store_root: Seq<char>, hash: Seq<char>) -> Seq<char> {
    join_text(join_text(join_text(store_root, "blobs"@), hash.subrange(0, 2)), hash)
}

pub fn blob_path(store_root: &str, hash: &str) -> (out: String)
    requires
        hash@.len() >= 2,
        hash@[0] <= '\u{7f}' && hash@[1] <= '\u{7f}',
    ensures
        out@ == blob_path_of(store_root@, hash@),
{
    let h = chars_of(hash);
    let prefix = string_of(slice_range(h.as_slice(), 0, 2).as_slice());
    let blobs = join_path(store_root, "blobs");
    let shard = join_path(blobs.as_str(), prefix.as_str());
    join_path(shard.as_str(), hash)
}

/// A component as the manifests record it: a literal `%` written as `%25`,
/// so that the escape itself stays unambiguous.
pub open spec fn escape_percent(s: Seq<char>) -> Seq<char>
    decreases s.len(),
{
    if s.len() == 0 {
        s
    } else {
        escape_percent(s.drop_last()) + if s.last() == '%' { "%25"@ } else { seq![s.last()] }
    }
}

pub open spec fn escaped_all(c: Seq<Seq<char>>) -> Seq<Seq<char>> {
    c.map_values(|x: Seq<char>| escape_percent(x))
}

/// A path as the manifests record it: its components, each with `%`
/// escaped as `%25`, joined by `/`, a leading `.` dropped and a root written
/// as `/`.
pub open spec fn logical_path_of(p: Seq<char>) -> Seq<char> {
    let c = comps_of(p);
    join(escaped_all(if c.len() > 0 && c[0] == "."@ { c.drop_first() } else { c }), "/"@)
}

fn escape_percent_vec(s: &[char]) -> (out: Vec<char>)
    ensures
        out@ == escape_percent(s@),
{
    let mut out: Vec<char> = Vec::new();
    let mut i: usize = 0;
    proof { reveal_strlit("%25"); }
    assert(s@.take(0) =~= Seq::<char>::empty());
    while i < s.len()
        invariant
            i <= s@.len(),
            out@ == escape_percent(s@.take(i as int)),
        decreases s@.len() - i,
    {
        assert(s@.take(i + 1).drop_last() =~= s@.take(i as int));
        assert(s@.take(i + 1).last() == s@[i as int]);
        let c = s[i];
        if c == '%' {
            out.push('%');
            out.push('2');
            out.push('5');
            proof { reveal_strlit("%25"); }
            assert("%25"@ =~= seq!['%', '2', '5']);
            assert(out@ =~= escape_percent(s@.take(i + 1)));
        } else {
            out.push(c);
            assert(out@ =~= escape_percent(s@.take(i + 1)));
        }
        i = i + 1;
    }
    assert(s@.take(s@.len() as int) =~= s@);
    out
}

pub fn logical_path(path: &str) -> (out: String)
    ensures
        out@ == logical_path_of(path@),
{
    let chars = chars_of(path);
    let comps = comps_vec(chars.as_slice());
    let ghost cv = views_of(comps@);
    let mut kept: Vec<Vec<char>> = Vec::new();
    let start: usize = if comps.len() > 0 && eq_str(comps[0].as_slice(), ".") { 1 } else { 0 };
    let mut i = start;
    assert(escaped_all(cv.subrange(start as int, start as int)) =~= Seq::<Seq<char>>::empty());
    while i < comps.len()
        invariant
            start <= i <= comps@.len(),
            cv == views_of(comps@),
            views_of(kept@) == escaped_all(cv.subrange(start as int, i as int)),
        decreases comps@.len() - i,
    {
        let ghost before = views_of(kept@);
        let c = escape_percent_vec(comps[i].as_slice());
        kept.push(c);
        assert(views_of(kept@) =~= before.push(c@));
        assert(views_of(kept@) =~= escaped_all(cv.subrange(start as int, i + 1)));
        i = i + 1;
    }
    assert(cv.subrange(start as int, comps@.len() as int) =~= if start == 1 { cv.drop_first() } else { cv });
    let slash = chars_of("/");
    string_of(join_vec(&kept, slash.as_slice()).as_slice())
}

/// A path for people: an extended-length prefix is shown as the path it
/// stands for.
pub open spec fn display_path_of(p: Seq<char>) -> Seq<char> {
    if has_prefix(p, "\\\\?\\UNC\\"@) {
        "\\\\"@ + p.skip(8)
    } else if has_prefix(p, "\\\\?\\"@) {
        p.skip(4)
    } else {
        p
    }
}

pub fn display_path(path: &str) -> (out: String)
    ensures
        out@ == display_path_of(path@),
{
    let chars = chars_of(path);
    if starts_with_str(chars.as_slice(), "\\\\?\\UNC\\") {
        proof { reveal_strlit("\\\\?\\UNC\\"); }
        let mut out = chars_of("\\\\");
        push_chars(&mut out, slice_range(chars.as_slice(), 8, chars.len()).as_slice());
        assert(out@ =~= display_path_of(path@));
        return string_of(out.as_slice());
    }
    if starts_with_str(chars.as_slice(), "\\\\?\\") {
        proof { reveal_strlit("\\\\?\\"); }
        let out = slice_range(chars.as_slice(), 4, chars.len());
        assert(out@ =~= display_path_of(path@));
        return string_of(out.as_slice());
    }
    string_of(chars.as_slice())
}

// ----- statistics -------------------------------------------------------------------

/// `a + b`, held at `u64::MAX`.
pub open spec fn sat_add(a: nat, b: nat) -> nat {
    if a + b > u64::MAX { u64::MAX as nat } else { a + b }
}

pub open spec fn size_sum(sizes: Seq<u64>) -> nat
    decreases sizes.len(),
{
    if sizes.len() == 0 { 0 } else { sat_add(size_sum(sizes.drop_last()), sizes.last() as nat) }
}

pub open spec fn entry_sizes(es: Seq<ManifestEntry>) -> Seq<u64> {
    es.map_values(|e: ManifestEntry| e.size)
}

/// One manifest's share of the store.
#[derive(Debug, Clone, PartialEq, Eq)]
pub struct ManifestStats {
    pub label: String,
    pub file_count: u64,
    pub logical_bytes: u64,
    pub error_count: u64,
}

/// The saturating sum of the sizes of `es`.
fn logical_bytes(es: &Vec<ManifestEntry>) -> (r: u64)
    ensures
        r as nat == size_sum(entry_sizes(es@)),
{
    let mut total: u64 = 0;
    let mut i: usize = 0;
    assert(entry_sizes(es@).take(0) =~= Seq::<u64>::empty());
    while i < es.len()
        invariant
            i <= es@.len(),
            total as nat == size_sum(entry_sizes(es@).take(i as int)),
        decreases es@.len() - i,
    {
        assert(entry_sizes(es@).take(i + 1).drop_last() =~= entry_sizes(es@).take(i as int));
        assert(entry_sizes(es@).take(i + 1).last() == es@[i as int].size);
        total = total.saturating_add(es[i].size);
        i = i + 1;
    }
    assert(entry_sizes(es@).take(es@.len() as int) =~= entry_sizes(es@));
    total
}

/// The statistics of one manifest.
pub fn manifest_stats(m: &Manifest) -> (r: ManifestStats)
    ensures
        r.label@ == m.header.label@,
        r.file_count == m.files@.len(),
        r.logical_bytes as nat == size_sum(entry_sizes(m.files@)),
        r.error_count == m.run_report.errors@.len(),
{
    ManifestStats {
        label: string_of(chars_of(m.header.label.as_str()).as_slice()),
        file_count: m.files.len() as u64,
        logical_bytes: logical_bytes(&m.files),
        error_count: m.run_report.errors.len() as u64,
    }
}

/// The entries of every manifest, in order.
pub open spec fn all_entries(ms: Seq<Manifest>) -> Seq<ManifestEntry>
    decreases ms.len(),
{
    if ms.len() == 0 { Seq::empty() } else { all_entries(ms.drop_last()) + ms.last().files@ }
}

/// The digests of `es` each with the size of its first occurrence, in order
/// of first occurrence.
pub open spec fn first_sizes(es: Seq<ManifestEntry>) -> Seq<(Seq<char>, u64)>
    decreases es.len(),
{
    if es.len() == 0 {
        Seq::empty()
    } else {
        let prev = first_sizes(es.drop_last());
        if exists|i: int| 0 <= i < prev.len() && (#[trigger] prev[i]).0 == es.last().blake3@ {
            prev
        } else {
            prev.push((es.last().blake3@, es.last().size))
        }
    }
}

pub open spec fn pair_sizes(v: Seq<(Seq<char>, u64)>) -> Seq<u64> {
    v.map_values(|p: (Seq<char>, u64)| p.1)
}

/// What a set of manifests says about the store, apart from the blobs on
/// disk: per-manifest shares in label order, the files and bytes they
/// reference, the distinct blobs among them and the bytes de-duplication
/// saves.
#[derive(Debug, Clone, PartialEq, Eq)]
pub struct ReferenceTotals {
    pub manifests: Vec<ManifestStats>,
    pub referenced_files: u64,
    pub referenced_bytes: u64,
    pub unique_referenced_blobs: u64,
    pub unique_referenced_bytes: u64,
    pub dedup_saved_bytes: u64,
}

pub open spec fn manifest_share_sum(ms: Seq<Manifest>) -> nat
    decreases ms.len(),
{
    if ms.len() == 0 { 0 } else { sat_add(manifest_share_sum(ms.drop_last()), size_sum(entry_sizes(ms.last().files@))) }
}

pub open spec fn stat_view(s: ManifestStats) -> (Seq<char>, u64, u64, u64) {
    (s.label@, s.file_count, s.logical_bytes, s.error_count)
}

pub open spec fn stat_views(v: Seq<ManifestStats>) -> Seq<(Seq<char>, u64, u64, u64)> {
    v.map_values(|s: ManifestStats| stat_view(s))
}

/// What `manifest_stats` reports of each manifest, in order.
pub open spec fn expected_stats(ms: Seq<Manifest>) -> Seq<(Seq<char>, u64, u64, u64)> {
    ms.map_values(|m: Manifest| (m.header.label@, m.files@.len() as u64, size_sum(entry_sizes(m.files@)) as u64,
        m.run_report.errors@.len() as u64))
}

pub open spec fn stats_label_le(a: ManifestStats, b: ManifestStats) -> bool {
    lex_le(a.label@, b.label@)
}

fn stats_insert(v: &mut Vec<ManifestStats>, x: ManifestStats)
    ensures
        final(v)@.len() == old(v)@.len() + 1,
        final(v)@.to_multiset() == old(v)@.to_multiset().insert(x),
        stat_views(final(v)@).to_multiset() == stat_views(old(v)@).to_multiset().insert(stat_view(x)),
        (forall|a: int, b: int| 0 <= a < b < old(v)@.len() ==> stats_label_le(#[trigger] old(v)@[a], #[trigger] old(v)@[b]))
            ==> forall|a: int, b: int| 0 <= a < b < final(v)@.len() ==> stats_label_le(#[trigger] final(v)@[a], #[trigger] final(v)@[b]),
{
    let ghost s0 = v@;
    let mut j: usize = 0;
    while j < v.len() && lex_le_exec(chars_of(v[j].label.as_str()).as_slice(), chars_of(x.label.as_str()).as_slice())
        invariant
            j <= v@.len(),
            s0 == v@,
            forall|k: int| 0 <= k < j ==> stats_label_le(#[trigger] v@[k], x),
        decreases v@.len() - j,
    {
        j = j + 1;
    }
    proof {
        if j < s0.len() {
            crate::scan::lemma_lex_total(s0[j as int].label@, x.label@);
        }
    }
    let ghost xv = stat_view(x);
    v.insert(j, x);
    proof {
        broadcast use vstd::seq_lib::group_to_multiset_ensures;
        let n = v@;
        assert(stat_views(n) =~= stat_views(s0).insert(j as int, xv));
        assert(n.remove(j as int) =~= s0);
        assert(n[j as int] == x);
        if forall|a: int, b: int| 0 <= a < b < s0.len() ==> stats_label_le(#[trigger] s0[a], #[trigger] s0[b]) {
            assert forall|a: int, b: int| 0 <= a < b < n.len() implies stats_label_le(#[trigger] n[a], #[trigger] n[b]) by {
                if b < j {
                    assert(n[a] == s0[a] && n[b] == s0[b]);
                } else if b == j {
                    assert(n[a] == s0[a]);
                } else if a == j {
                    assert(n[b] == s0[b - 1]);
                    if b - 1 > j {
                        crate::scan::lemma_lex_transitive(x.label@, s0[j as int].label@, s0[b - 1].label@);
                    }
                } else if a < j {
                    assert(n[a] == s0[a] && n[b] == s0[b - 1]);
                } else {
                    assert(n[a] == s0[a - 1] && n[b] == s0[b - 1]);
                }
            }
        }
    }
}

fn find_hash(seen: &Vec<(String, u64)>, h: &[char]) -> (r: bool)
    ensures
        r == exists|i: int| 0 <= i < seen@.len() && (#[trigger] seen@[i]).0@ == h@,
{
    let mut i: usize = 0;
    while i < seen.len()
        invariant
            i <= seen@.len(),
            forall|k: int| 0 <= k < i ==> (#[trigger] seen@[k]).0@ != h@,
        decreases seen@.len() - i,
    {
        if eq_str(h, seen[i].0.as_str()) {
            return true;
        }
        i = i + 1;
    }
    false
}

pub open spec fn seen_views(v: Seq<(String, u64)>) -> Seq<(Seq<char>, u64)> {
    v.map_values(|p: (String, u64)| (p.0@, p.1))
}

/// The store-wide totals of a set of manifests.
pub fn reference_totals(manifests: &Vec<Manifest>) -> (r: ReferenceTotals)
    requires
        all_entries(manifests@).len() <= u64::MAX,
    ensures
        r.manifests@.len() == manifests@.len(),
        forall|a: int, b: int| 0 <= a < b < r.manifests@.len() ==> stats_label_le(#[trigger] r.manifests@[a], #[trigger] r.manifests@[b]),
        r.referenced_files == all_entries(manifests@).len(),
        r.referenced_bytes as nat == manifest_share_sum(manifests@),
        r.unique_referenced_blobs == first_sizes(all_entries(manifests@)).len(),
        r.unique_referenced_bytes as nat == size_sum(pair_sizes(first_sizes(all_entries(manifests@)))),
        r.dedup_saved_bytes as nat == if r.referenced_bytes >= r.unique_referenced_bytes { (r.referenced_bytes - r.unique_referenced_bytes) as nat } else { 0 },
        stat_views(r.manifests@).to_multiset() == expected_stats(manifests@).to_multiset(),
{
    let ghost ms = manifests@;
    let mut stats: Vec<ManifestStats> = Vec::new();
    let mut files: u64 = 0;
    let mut bytes: u64 = 0;
    let mut seen: Vec<(String, u64)> = Vec::new();
    let mut unique_bytes: u64 = 0;
    let mut i: usize = 0;
    assert(ms.take(0) =~= Seq::<Manifest>::empty());
    proof {
        broadcast use vstd::seq_lib::group_to_multiset_ensures;
        assert(stat_views(stats@) =~= expected_stats(ms.take(0)));
    }
    while i < manifests.len()
        invariant
            i <= ms.len(),
            ms == manifests@,
            all_entries(ms).len() <= u64::MAX,
            stats@.len() == i,
            forall|a: int, b: int| 0 <= a < b < stats@.len() ==> stats_label_le(#[trigger] stats@[a], #[trigger] stats@[b]),
            stat_views(stats@).to_multiset() == expected_stats(ms.take(i as int)).to_multiset(),
            files as nat == all_entries(ms.take(i as int)).len(),
            all_entries(ms.take(i as int)).len() <= all_entries(ms).len(),
            bytes as nat == manifest_share_sum(ms.take(i as int)),
            seen_views(seen@) == first_sizes(all_entries(ms.take(i as int))),
            unique_bytes as nat == size_sum(pair_sizes(first_sizes(all_entries(ms.take(i as int))))),
        decreases ms.len() - i,
    {
        assert(ms.take(i + 1).drop_last() =~= ms.take(i as int));
        assert(ms.take(i + 1).last() == ms[i as int]);
        let m = &manifests[i];
        proof { lemma_entries_prefix(ms, i as int); }
        let share = manifest_stats(m);
        files = files + m.files.len() as u64;
        bytes = bytes.saturating_add(share.logical_bytes);
        let ghost sv = stat_view(share);
        stats_insert(&mut stats, share);
        proof {
            broadcast use vstd::seq_lib::group_to_multiset_ensures;
            assert(expected_stats(ms.take(i + 1)) =~= expected_stats(ms.take(i as int)).push(sv));
        }
        let ghost base = all_entries(ms.take(i as int));
        let mut k: usize = 0;
        assert(m.files@.take(0) =~= Seq::<ManifestEntry>::empty());
        assert(base + m.files@.take(0) =~= base);
        while k < m.files.len()
            invariant
                k <= m.files@.len(),
                m == &manifests@[i as int],
                seen_views(seen@) == first_sizes(base + m.files@.take(k as int)),
                unique_bytes as nat == size_sum(pair_sizes(first_sizes(base + m.files@.take(k as int)))),
            decreases m.files@.len() - k,
        {
            let e = &m.files[k];
            let ghost prefix = base + m.files@.take(k as int);
            assert((base + m.files@.take(k + 1)).drop_last() =~= prefix);
            assert((base + m.files@.take(k + 1)).last() == m.files@[k as int]);
            let h = chars_of(e.blake3.as_str());
            let known = find_hash(&seen, h.as_slice());
            proof {
                let sv = seen_views(seen@);
                if known {
                    let w = choose|w: int| 0 <= w < seen@.len() && (#[trigger] seen@[w]).0@ == h@;
                    assert(sv[w].0 == e.blake3@);
                } else {
                    assert forall|w: int| 0 <= w < sv.len() implies (#[trigger] sv[w]).0 != e.blake3@ by {
                        assert(sv[w].0 == seen@[w].0@);
                    }
                }
            }
            if !known {
                let ghost before = seen_views(seen@);
                seen.push((string_of(h.as_slice()), e.size));
                assert(seen_views(seen@) =~= before.push((e.blake3@, e.size)));
                assert(pair_sizes(seen_views(seen@)).drop_last() =~= pair_sizes(before));
                unique_bytes = unique_bytes.saturating_add(e.size);
            }
            k = k + 1;
        }
        assert(m.files@.take(m.files@.len() as int) =~= m.files@);
        assert(all_entries(ms.take(i + 1)) == base + m.files@);
        i = i + 1;
    }
    assert(ms.take(ms.len() as int) =~= ms);
    let unique_count = seen.len() as u64;
    ReferenceTotals {
        manifests: stats,
        referenced_files: files,
        referenced_bytes: bytes,
        unique_referenced_blobs: unique_count,
        unique_referenced_bytes: unique_bytes,
        dedup_saved_bytes: bytes.saturating_sub(unique_bytes),
    }
}

proof fn lemma_entries_prefix(ms: Seq<Manifest>, i: int)
    requires
        0 <= i < ms.len(),
    ensures
        all_entries(ms.take(i + 1)).len() <= all_entries(ms).len(),
        all_entries(ms.take(i + 1)) == all_entries(ms.take(i)) + ms[i].files@,
    decreases ms.len(),
{
    assert(ms.take(i + 1).drop_last() =~= ms.take(i));
    if i < ms.len() - 1 {
        assert(ms.drop_last().take(i + 1) =~= ms.take(i + 1));
        assert(ms.drop_last().take(i) =~= ms.take(i));
        lemma_entries_prefix(ms.drop_last(), i);
    } else {
        assert(ms.take(i + 1) =~= ms);
    }
}

// ----- lookups, caching and verification ----------------------------------------------

/// One manifest entry that answers a lookup.
#[derive(Debug, Clone, PartialEq, Eq)]
pub struct LookupMatch {
    pub label: String,
    pub path: String,
    pub blake3: String,
    pub size: u64,
}

/// What a lookup query asks for: a digest (any case) or a path, as the
/// manifests record it or spelled with backslashes.
pub open spec fn query_digest(q: Seq<char>) -> Option<Seq<char>> {
    if is_blake3_text(q) { Some(lower(q)) } else { None }
}

pub open spec fn query_paths(q: Seq<char>) -> Seq<Seq<char>> {
    let first = logical_path_of(q);
    let raw = replace_char(q, '\\', '/');
    if raw == first { seq![first] } else { seq![first, raw] }
}

pub open spec fn entry_matches(q: Seq<char>, e: ManifestEntry) -> bool {
    match query_digest(q) {
        Some(h) => e.blake3@ == h,
        None => query_paths(q).contains(e.path@),
    }
}

/// Whether `m` copies an entry of `ms` that answers the query.
pub open spec fn from_manifests(ms: Seq<Manifest>, q: Seq<char>, m: LookupMatch) -> bool {
    exists|i: int, k: int| #[trigger] answers(ms, q, i, k)
        && m.label@ == ms[i].header.label@ && m.path@ == ms[i].files@[k].path@
        && m.blake3@ == ms[i].files@[k].blake3@ && m.size == ms[i].files@[k].size
}

pub open spec fn match_le(a: LookupMatch, b: LookupMatch) -> bool {
    (lex_le(a.label@, b.label@) && a.label@ != b.label@) || (a.label@ == b.label@ && lex_le(a.path@, b.path@))
}

pub open spec fn match_view(m: LookupMatch) -> (Seq<char>, Seq<char>, Seq<char>, u64) {
    (m.label@, m.path@, m.blake3@, m.size)
}

pub open spec fn match_views(v: Seq<LookupMatch>) -> Seq<(Seq<char>, Seq<char>, Seq<char>, u64)> {
    v.map_values(|m: LookupMatch| match_view(m))
}

/// The entries of one manifest that answer the query, in order.
pub open spec fn entry_answers(label: Seq<char>, es: Seq<ManifestEntry>, q: Seq<char>) -> Seq<(Seq<char>, Seq<char>, Seq<char>, u64)>
    decreases es.len(),
{
    if es.len() == 0 {
        Seq::empty()
    } else {
        let rest = entry_answers(label, es.drop_last(), q);
        if entry_matches(q, es.last()) { rest.push((label, es.last().path@, es.last().blake3@, es.last().size)) } else { rest }
    }
}

/// Every manifest entry that answers the query, manifest by manifest.
pub open spec fn all_answers(ms: Seq<Manifest>, q: Seq<char>) -> Seq<(Seq<char>, Seq<char>, Seq<char>, u64)>
    decreases ms.len(),
{
    if ms.len() == 0 {
        Seq::empty()
    } else {
        all_answers(ms.drop_last(), q) + entry_answers(ms.last().header.label@, ms.last().files@, q)
    }
}

/// Whether entry `k` of manifest `i` answers the query.
pub open spec fn answers(ms: Seq<Manifest>, q: Seq<char>, i: int, k: int) -> bool {
    0 <= i < ms.len() && 0 <= k < ms[i].files@.len() && entry_matches(q, ms[i].files@[k])
}

fn entry_matches_exec(digest: &Option<Vec<char>>, paths: &Vec<Vec<char>>, e: &ManifestEntry, q: Ghost<Seq<char>>) -> (r: bool)
    requires
        match *digest { Some(h) => query_digest(q@) == Some(h@), None => query_digest(q@) is None },
        views_of(paths@) == query_paths(q@),
    ensures
        r == entry_matches(q@, *e),
{
    match digest {
        Some(h) => eq_str(h.as_slice(), e.blake3.as_str()),
        None => {
            let p = chars_of(e.path.as_str());
            let mut i: usize = 0;
            while i < paths.len()
                invariant
                    i <= paths@.len(),
                    p@ == e.path@,
                    query_digest(q@) is None,
                    views_of(paths@) == query_paths(q@),
                    forall|k: int| 0 <= k < i ==> views_of(paths@)[k] != e.path@,
                decreases paths@.len() - i,
            {
                if seq_eq(paths[i].as_slice(), p.as_slice()) {
                    assert(views_of(paths@)[i as int] == e.path@);
                    return true;
                }
                i = i + 1;
            }
            false
        },
    }
}

/// Every manifest entry that answers `query`, ordered by label and path.
pub fn lookup_matches(query: &str, manifests: &Vec<Manifest>) -> (r: Vec<LookupMatch>)
    ensures
        forall|a: int, b: int| 0 <= a < b < r@.len() ==> match_le(#[trigger] r@[a], #[trigger] r@[b]),
        forall|x: int| 0 <= x < r@.len() ==> from_manifests(manifests@, query@, #[trigger] r@[x]),
        match_views(r@).to_multiset() == all_answers(manifests@, query@).to_multiset(),
{
    let q = chars_of(query);
    let digest: Option<Vec<char>> = if is_blake3(query) { Some(lower_vec(q.as_slice())) } else { None };
    let first = chars_of(logical_path(query).as_str());
    let raw = replace_char_vec(q.as_slice(), '\\', '/');
    let mut paths: Vec<Vec<char>> = Vec::new();
    let same = seq_eq(raw.as_slice(), first.as_slice());
    paths.push(first);
    if !same {
        paths.push(raw);
    }
    assert(views_of(paths@) =~= query_paths(query@));
    let mut out: Vec<LookupMatch> = Vec::new();
    let mut i: usize = 0;
    assert(match_views(out@) =~= Seq::empty());
    assert(manifests@.take(0) =~= Seq::<Manifest>::empty());
    while i < manifests.len()
        invariant
            i <= manifests@.len(),
            match digest { Some(h) => query_digest(query@) == Some(h@), None => query_digest(query@) is None },
            views_of(paths@) == query_paths(query@),
            forall|a: int, b: int| 0 <= a < b < out@.len() ==> match_le(#[trigger] out@[a], #[trigger] out@[b]),
            forall|x: int| 0 <= x < out@.len() ==> from_manifests(manifests@, query@, #[trigger] out@[x]),
            match_views(out@).to_multiset() == all_answers(manifests@.take(i as int), query@).to_multiset(),
        decreases manifests@.len() - i,
    {
        let m = &manifests[i];
        let ghost base = all_answers(manifests@.take(i as int), query@).to_multiset();
        let ghost label = m.header.label@;
        let mut k: usize = 0;
        assert(m.files@.take(0) =~= Seq::<ManifestEntry>::empty());
        proof {
            broadcast use vstd::seq_lib::group_to_multiset_ensures;
            assert(entry_answers(label, m.files@.take(0), query@) =~= Seq::empty());
            assert(entry_answers(label, m.files@.take(0), query@).to_multiset() =~= vstd::multiset::Multiset::empty());
            assert(base.add(entry_answers(label, m.files@.take(0), query@).to_multiset()) =~= base);
        }
        while k < m.files.len()
            invariant
                k <= m.files@.len(),
                i < manifests@.len(),
                m == &manifests@[i as int],
                label == m.header.label@,
                match digest { Some(h) => query_digest(query@) == Some(h@), None => query_digest(query@) is None },
                views_of(paths@) == query_paths(query@),
                forall|a: int, b: int| 0 <= a < b < out@.len() ==> match_le(#[trigger] out@[a], #[trigger] out@[b]),
                forall|x: int| 0 <= x < out@.len() ==> from_manifests(manifests@, query@, #[trigger] out@[x]),
                match_views(out@).to_multiset() == base.add(entry_answers(label, m.files@.take(k as int), query@).to_multiset()),
            decreases m.files@.len() - k,
        {
            let e = &m.files[k];
            assert(m.files@.take(k + 1).drop_last() =~= m.files@.take(k as int));
            assert(m.files@.take(k + 1).last() == m.files@[k as int]);
            let ghost prev = entry_answers(label, m.files@.take(k as int), query@);
            if entry_matches_exec(&digest, &paths, e, Ghost(query@)) {
                let found = LookupMatch {
                    label: string_of(chars_of(m.header.label.as_str()).as_slice()),
                    path: string_of(chars_of(e.path.as_str()).as_slice()),
                    blake3: string_of(chars_of(e.blake3.as_str()).as_slice()),
                    size: e.size,
                };
                assert(answers(manifests@, query@, i as int, k as int));
                let ghost fv = match_view(found);
                insert_match(&mut out, found, Ghost(manifests@), Ghost(query@), Ghost(i as int), Ghost(k as int));
                proof {
                    broadcast use vstd::seq_lib::group_to_multiset_ensures;
                    assert(prev.push(fv).to_multiset() =~= prev.to_multiset().insert(fv));
                    assert(base.add(prev.push(fv).to_multiset()) =~= base.add(prev.to_multiset()).insert(fv));
                }
            }
            k = k + 1;
        }
        assert(m.files@.take(m.files@.len() as int) =~= m.files@);
        assert(manifests@.take(i + 1).drop_last() =~= manifests@.take(i as int));
        assert(manifests@.take(i + 1).last() == manifests@[i as int]);
        proof {
            vstd::seq_lib::lemma_multiset_commutative(all_answers(manifests@.take(i as int), query@),
                entry_answers(label, m.files@, query@));
        }
        i = i + 1;
    }
    assert(manifests@.take(manifests@.len() as int) =~= manifests@);
    out
}

fn match_le_exec(a: &LookupMatch, b: &LookupMatch) -> (r: bool)
    ensures
        r == match_le(*a, *b),
{
    let al = chars_of(a.label.as_str());
    let bl = chars_of(b.label.as_str());
    if seq_eq(al.as_slice(), bl.as_slice()) {
        lex_le_exec(chars_of(a.path.as_str()).as_slice(), chars_of(b.path.as_str()).as_slice())
    } else {
        lex_le_exec(al.as_slice(), bl.as_slice())
    }
}

proof fn lemma_match_total(a: LookupMatch, b: LookupMatch)
    ensures
        match_le(a, b) || match_le(b, a),
{
    crate::scan::lemma_lex_total(a.label@, b.label@);
    crate::scan::lemma_lex_total(a.path@, b.path@);
}

proof fn lemma_match_trans(a: LookupMatch, b: LookupMatch, c: LookupMatch)
    requires
        match_le(a, b),
        match_le(b, c),
    ensures
        match_le(a, c),
{
    if a.label@ == b.label@ && b.label@ == c.label@ {
        crate::scan::lemma_lex_transitive(a.path@, b.path@, c.path@);
    } else {
        crate::scan::lemma_lex_total(a.label@, a.label@);
        crate::scan::lemma_lex_total(b.label@, b.label@);
        assert(lex_le(a.label@, b.label@));
        assert(lex_le(b.label@, c.label@));
        crate::scan::lemma_lex_transitive(a.label@, b.label@, c.label@);
        if a.label@ == c.label@ {
            if a.label@ != b.label@ {
                crate::scan::lemma_lex_antisym(a.label@, b.label@);
            } else {
                crate::scan::lemma_lex_antisym(b.label@, c.label@);
            }
        }
    }
}

fn insert_match(out: &mut Vec<LookupMatch>, x: LookupMatch, ms: Ghost<Seq<Manifest>>, q: Ghost<Seq<char>>, i: Ghost<int>, k: Ghost<int>)
    requires
        forall|a: int, b: int| 0 <= a < b < old(out)@.len() ==> match_le(#[trigger] old(out)@[a], #[trigger] old(out)@[b]),
        forall|y: int| 0 <= y < old(out)@.len() ==> from_manifests(ms@, q@, #[trigger] old(out)@[y]),
        answers(ms@, q@, i@, k@),
        x.label@ == ms@[i@].header.label@ && x.path@ == ms@[i@].files@[k@].path@
            && x.blake3@ == ms@[i@].files@[k@].blake3@ && x.size == ms@[i@].files@[k@].size,
    ensures
        forall|a: int, b: int| 0 <= a < b < final(out)@.len() ==> match_le(#[trigger] final(out)@[a], #[trigger] final(out)@[b]),
        forall|y: int| 0 <= y < final(out)@.len() ==> from_manifests(ms@, q@, #[trigger] final(out)@[y]),
        match_views(final(out)@).to_multiset() == match_views(old(out)@).to_multiset().insert(match_view(x)),
{
    let ghost s0 = out@;
    let mut j: usize = 0;
    while j < out.len() && match_le_exec(&out[j], &x)
        invariant
            j <= out@.len(),
            s0 == out@,
            forall|a: int| 0 <= a < j ==> match_le(#[trigger] out@[a], x),
        decreases out@.len() - j,
    {
        j = j + 1;
    }
    proof {
        if j < s0.len() {
            lemma_match_total(s0[j as int], x);
        }
    }
    let ghost xv = match_view(x);
    out.insert(j, x);
    proof {
        let n = out@;
        assert(match_views(n) =~= match_views(s0).insert(j as int, xv));
        vstd::seq_lib::to_multiset_insert(match_views(s0), j as int, xv);
        assert forall|a: int, b: int| 0 <= a < b < n.len() implies match_le(#[trigger] n[a], #[trigger] n[b]) by {
            if b < j {
                assert(n[a] == s0[a] && n[b] == s0[b]);
            } else if b == j {
                assert(n[a] == s0[a]);
            } else if a == j {
                assert(n[b] == s0[b - 1]);
                if b - 1 > j {
                    lemma_match_trans(x, s0[j as int], s0[b - 1]);
                }
            } else if a < j {
                assert(n[a] == s0[a] && n[b] == s0[b - 1]);
            } else {
                assert(n[a] == s0[a - 1] && n[b] == s0[b - 1]);
            }
        }
        assert forall|y: int| 0 <= y < n.len() implies from_manifests(ms@, q@, #[trigger] n[y]) by {
            if y < j {
                assert(n[y] == s0[y]);
            } else if y > j {
                assert(n[y] == s0[y - 1]);
            } else {
                assert(answers(ms@, q@, i@, k@));
            }
        }
    }
}

/// Whether a re-ingest takes a file's previous entry instead of reading it:
/// same size, same modification time, and the blob still present.
pub fn reuse_cached(entry: &ManifestEntry, size: u64, mtime: i64, blob_present: bool) -> (r: bool)
    ensures
        r == (entry.size == size && entry.mtime == mtime && blob_present),
{
    entry.size == size && entry.mtime == mtime && blob_present
}

/// One blob check: its digest was expected, and reading it gave a digest
/// and a byte count, or an error.
#[derive(Debug, Clone, PartialEq, Eq)]
pub struct VerifyFailure {
    pub blake3: String,
    pub path: String,
    pub error: String,
}

#[derive(Debug, Clone, PartialEq, Eq)]
pub struct VerifyResult {
    pub checked: u64,
    pub checked_bytes: u64,
    pub failures: Vec<VerifyFailure>,
}

/// The outcome of checking one blob: the bytes read, and a failure when the
/// digest differs or the blob could not be read.
pub fn check_blob(expected: &str, path: &str, read: Result<(String, u64), String>) -> (r: (u64, Option<VerifyFailure>))
    ensures
        match read {
            Ok((actual, bytes)) => r.0 == bytes && (r.1 is None <==> actual@ == expected@)
                && (r.1 matches Some(f) ==> f.blake3@ == expected@ && f.path@ == path@ && f.error@ == "hash mismatch: got "@ + actual@),
            Err(message) => r.0 == 0 && (r.1 matches Some(f) && f.blake3@ == expected@ && f.path@ == path@ && f.error@ == message@),
        },
{
    match read {
        Ok((actual, bytes)) => {
            if eq_str(chars_of(actual.as_str()).as_slice(), expected) {
                (bytes, None)
            } else {
                let mut error = chars_of("hash mismatch: got ");
                push_str(&mut error, actual.as_str());
                (bytes, Some(VerifyFailure {
                    blake3: string_of(chars_of(expected).as_slice()),
                    path: string_of(chars_of(path).as_slice()),
                    error: string_of(error.as_slice()),
                }))
            }
        },
        Err(message) => (0, Some(VerifyFailure {
            blake3: string_of(chars_of(expected).as_slice()),
            path: string_of(chars_of(path).as_slice()),
            error: message,
        })),
    }
}

/// The digests a manifest records.
pub open spec fn recorded_hashes(files: Seq<ManifestEntry>) -> Set<Seq<char>> {
    Set::new(|h: Seq<char>| exists|i: int| 0 <= i < files.len() && (#[trigger] files[i]).blake3@ == h)
}

/// The blobs verifying a manifest checks: each digest it records, once,
/// in ascending order.
pub fn distinct_hashes(manifest: &Manifest) -> (out: Vec<String>)
    ensures
        ascending(out@),
        id_set(out@) == recorded_hashes(manifest.files@),
{
    let files = &manifest.files;
    let mut out: Vec<String> = Vec::new();
    let mut i: usize = 0;
    assert(id_set(out@) =~= recorded_hashes(files@.take(0)));
    while i < files.len()
        invariant
            i <= files@.len(),
            ascending(out@),
            id_set(out@) == recorded_hashes(files@.take(i as int)),
        decreases files@.len() - i,
    {
        let ghost before = id_set(out@);
        insert_id(&mut out, files[i].blake3.as_str());
        assert(recorded_hashes(files@.take(i + 1)) =~= before.insert(files@[i as int].blake3@)) by {
            assert forall|h: Seq<char>| #[trigger] recorded_hashes(files@.take(i + 1)).contains(h)
                implies before.insert(files@[i as int].blake3@).contains(h) by {
                let k = choose|k: int| 0 <= k < files@.take(i + 1).len() && (#[trigger] files@.take(i + 1)[k]).blake3@ == h;
                if k < i {
                    assert(files@.take(i as int)[k] == files@.take(i + 1)[k]);
                }
            }
            assert forall|h: Seq<char>| #[trigger] before.insert(files@[i as int].blake3@).contains(h)
                implies recorded_hashes(files@.take(i + 1)).contains(h) by {
                if h == files@[i as int].blake3@ {
                    assert(files@.take(i + 1)[i as int] == files@[i as int]);
                } else {
                    let k = choose|k: int| 0 <= k < files@.take(i as int).len() && (#[trigger] files@.take(i as int)[k]).blake3@ == h;
                    assert(files@.take(i as int)[k] == files@.take(i + 1)[k]);
                }
            }
        }
        i = i + 1;
    }
    assert(files@.take(files@.len() as int) =~= files@);
    out
}

/// The failures among per-blob outcomes, in order.
pub open spec fn failures_of(rs: Seq<(u64, Option<VerifyFailure>)>) -> Seq<VerifyFailure>
    decreases rs.len(),
{
    if rs.len() == 0 {
        Seq::empty()
    } else {
        match rs.last().1 {
            Some(f) => failures_of(rs.drop_last()).push(f),
            None => failures_of(rs.drop_last()),
        }
    }
}

/// The verification result from per-blob outcomes: how many were checked,
/// the bytes read (held at `u64::MAX`) and the failures in order.
pub fn verify_result(results: Vec<(u64, Option<VerifyFailure>)>) -> (r: VerifyResult)
    ensures
        r.checked == results@.len(),
        r.checked_bytes as nat == size_sum(results@.map_values(|x: (u64, Option<VerifyFailure>)| x.0)),
        r.failures@ == failures_of(results@),
{
    let ghost rv = results@;
    let ghost sizes = rv.map_values(|x: (u64, Option<VerifyFailure>)| x.0);
    let checked = results.len() as u64;
    let mut bytes: u64 = 0;
    let mut failures: Vec<VerifyFailure> = Vec::new();
    let mut rest = results;
    let ghost mut i: int = 0;
    assert(sizes.take(0) =~= Seq::<u64>::empty());
    assert(rv.skip(0) =~= rv);
    while rest.len() > 0
        invariant
            0 <= i <= rv.len(),
            rest@ == rv.skip(i),
            sizes == rv.map_values(|x: (u64, Option<VerifyFailure>)| x.0),
            bytes as nat == size_sum(sizes.take(i)),
            failures@ == failures_of(rv.take(i)),
        decreases rest@.len(),
    {
        let (n, failure) = rest.remove(0);
        assert(rv.skip(i)[0] == (n, failure));
        assert(sizes.take(i + 1).drop_last() =~= sizes.take(i));
        assert(sizes.take(i + 1).last() == n);
        bytes = bytes.saturating_add(n);
        assert(rv.take(i + 1).drop_last() =~= rv.take(i));
        assert(rv.take(i + 1).last() == rv[i]);
        match failure {
            Some(f) => failures.push(f),
            None => {},
        }
        proof {
            assert(rv.skip(i).drop_first() =~= rv.skip(i + 1));
            i = i + 1;
        }
    }
    assert(sizes.take(i) =~= sizes);
    VerifyResult { checked, checked_bytes: bytes, failures }
}

// ----- ingest results ----------------------------------------------------------------

/// What handling one candidate file came to.
#[derive(Debug)]
pub enum ProcessResult {
    Cached(ManifestEntry),
    Stored { entry: ManifestEntry, new_blob: bool, bytes_read: u64 },
    Error(ManifestError),
}

/// The recorded files and errors of one ingest, each in path order, and the
/// blob counts.
#[derive(Debug)]
pub struct IngestTally {
    pub files: Vec<ManifestEntry>,
    pub errors: Vec<ManifestError>,
    pub new_blobs: u64,
    pub existing_blobs: u64,
    pub bytes_read: u64,
}

pub open spec fn stored_count(rs: Seq<ProcessResult>, fresh: bool) -> nat
    decreases rs.len(),
{
    if rs.len() == 0 {
        0
    } else {
        stored_count(rs.drop_last(), fresh) + match rs.last() {
            ProcessResult::Stored { new_blob, .. } => if new_blob == fresh { 1nat } else { 0nat },
            _ => 0nat,
        }
    }
}

pub open spec fn read_sizes(rs: Seq<ProcessResult>) -> Seq<u64>
    decreases rs.len(),
{
    if rs.len() == 0 {
        Seq::empty()
    } else {
        read_sizes(rs.drop_last()) + match rs.last() {
            ProcessResult::Stored { bytes_read, .. } => seq![bytes_read],
            _ => Seq::empty(),
        }
    }
}

/// The entries the results record, in order.
pub open spec fn entries_of(rs: Seq<ProcessResult>) -> Seq<ManifestEntry>
    decreases rs.len(),
{
    if rs.len() == 0 {
        Seq::empty()
    } else {
        match rs.last() {
            ProcessResult::Cached(e) => entries_of(rs.drop_last()).push(e),
            ProcessResult::Stored { entry, .. } => entries_of(rs.drop_last()).push(entry),
            ProcessResult::Error(_) => entries_of(rs.drop_last()),
        }
    }
}

/// The errors the results record, in order.
pub open spec fn errors_of(rs: Seq<ProcessResult>) -> Seq<ManifestError>
    decreases rs.len(),
{
    if rs.len() == 0 {
        Seq::empty()
    } else {
        match rs.last() {
            ProcessResult::Error(e) => errors_of(rs.drop_last()).push(e),
            _ => errors_of(rs.drop_last()),
        }
    }
}

pub open spec fn entry_count(rs: Seq<ProcessResult>) -> nat
    decreases rs.len(),
{
    if rs.len() == 0 {
        0
    } else {
        entry_count(rs.drop_last()) + if rs.last() is Error { 0nat } else { 1nat }
    }
}

proof fn lemma_stored_bound(rs: Seq<ProcessResult>)
    ensures
        stored_count(rs, true) + stored_count(rs, false) <= rs.len(),
        entry_count(rs) <= rs.len(),
    decreases rs.len(),
{
    if rs.len() > 0 {
        lemma_stored_bound(rs.drop_last());
    }
}

/// The results of an ingest in which every file was taken from the previous
/// manifest, as happens when nothing changed since it: one entry per file,
/// the entries themselves.
pub open spec fn all_cached(rs: Seq<ProcessResult>) -> bool {
    forall|i: int| 0 <= i < rs.len() ==> #[trigger] rs[i] is Cached
}

/// A second ingest of an unchanged tree changes nothing: when every file is
/// taken from the previous manifest (`reuse_cached` holds for each), the
/// tally stores no blob, reads no byte, records no error and records exactly
/// the previous entries.
pub proof fn lemma_unchanged_reingest(rs: Seq<ProcessResult>)
    requires
        all_cached(rs),
    ensures
        stored_count(rs, true) == 0,
        stored_count(rs, false) == 0,
        size_sum(read_sizes(rs)) == 0,
        entry_count(rs) == rs.len(),
        errors_of(rs).len() == 0,
        entries_of(rs) == rs.map_values(|r: ProcessResult| r->Cached_0),
    decreases rs.len(),
{
    if rs.len() > 0 {
        let rest = rs.drop_last();
        assert(all_cached(rest)) by {
            assert forall|i: int| 0 <= i < rest.len() implies #[trigger] rest[i] is Cached by {
                assert(rest[i] == rs[i]);
            }
        }
        lemma_unchanged_reingest(rest);
        assert(rs[rs.len() - 1] is Cached);
        assert(read_sizes(rs) =~= read_sizes(rest));
        assert(entries_of(rs) =~= rs.map_values(|r: ProcessResult| r->Cached_0));
    } else {
        assert(read_sizes(rs) =~= Seq::<u64>::empty());
        assert(entries_of(rs) =~= rs.map_values(|r: ProcessResult| r->Cached_0));
    }
}

/// The rule a re-ingest applies to one file: when `reuse_cached` accepts the
/// previous entry, the file's result is that entry.
pub open spec fn reuse_rule(previous: ManifestEntry, size: u64, mtime: i64, blob_present: bool, r: ProcessResult) -> bool {
    (previous.size == size && previous.mtime == mtime && blob_present) ==> r == ProcessResult::Cached(previous)
}

/// A second ingest of an unchanged tree takes every file from the first:
/// when each file keeps the size and modification time its previous entry
/// records and that entry's blob is still stored, the reuse rule makes every
/// result the previous entry, and the tally of those results stores no blob,
/// reads no byte, records no error and records exactly the previous entries.
pub proof fn lemma_second_ingest_reuses_every_file(previous: Seq<ManifestEntry>, sizes: Seq<u64>, mtimes: Seq<i64>,
    present: Seq<bool>, rs: Seq<ProcessResult>)
    requires
        previous.len() == rs.len(),
        sizes.len() == rs.len(),
        mtimes.len() == rs.len(),
        present.len() == rs.len(),
        forall|k: int| 0 <= k < rs.len() ==> sizes[k] == (#[trigger] previous[k]).size && mtimes[k] == previous[k].mtime && present[k],
        forall|k: int| 0 <= k < rs.len() ==> reuse_rule(previous[k], sizes[k], mtimes[k], present[k], #[trigger] rs[k]),
    ensures
        rs == previous.map_values(|e: ManifestEntry| ProcessResult::Cached(e)),
        stored_count(rs, true) == 0,
        stored_count(rs, false) == 0,
        size_sum(read_sizes(rs)) == 0,
        errors_of(rs).len() == 0,
        entries_of(rs) == previous,
{
    assert forall|k: int| 0 <= k < rs.len() implies #[trigger] rs[k] == ProcessResult::Cached(previous[k]) by {
        assert(sizes[k] == previous[k].size);
        assert(reuse_rule(previous[k], sizes[k], mtimes[k], present[k], rs[k]));
    }
    assert(rs =~= previous.map_values(|e: ManifestEntry| ProcessResult::Cached(e)));
    assert(all_cached(rs)) by {
        assert forall|i: int| 0 <= i < rs.len() implies #[trigger] rs[i] is Cached by {
            assert(rs[i] == ProcessResult::Cached(previous[i]));
        }
    }
    lemma_unchanged_reingest(rs);
    assert(rs.map_values(|r: ProcessResult| r->Cached_0) =~= previous);
}

fn insert_entry(v: &mut Vec<ManifestEntry>, x: ManifestEntry)
    ensures
        final(v)@.len() == old(v)@.len() + 1,
        final(v)@.to_multiset() == old(v)@.to_multiset().insert(x),
        (forall|a: int, b: int| 0 <= a < b < old(v)@.len() ==> lex_le(#[trigger] old(v)@[a].path@, #[trigger] old(v)@[b].path@))
            ==> forall|a: int, b: int| 0 <= a < b < final(v)@.len() ==> lex_le(#[trigger] final(v)@[a].path@, #[trigger] final(v)@[b].path@),
{
    let ghost s0 = v@;
    let mut j: usize = 0;
    while j < v.len() && lex_le_exec(chars_of(v[j].path.as_str()).as_slice(), chars_of(x.path.as_str()).as_slice())
        invariant
            j <= v@.len(),
            s0 == v@,
            forall|k: int| 0 <= k < j ==> lex_le(#[trigger] v@[k].path@, x.path@),
        decreases v@.len() - j,
    {
        j = j + 1;
    }
    proof {
        if j < s0.len() {
            crate::scan::lemma_lex_total(s0[j as int].path@, x.path@);
        }
    }
    let ghost xv = x;
    v.insert(j, x);
    proof {
        let n = v@;
        vstd::seq_lib::to_multiset_insert(s0, j as int, xv);
        if forall|a: int, b: int| 0 <= a < b < s0.len() ==> lex_le(#[trigger] s0[a].path@, #[trigger] s0[b].path@) {
            assert forall|a: int, b: int| 0 <= a < b < n.len() implies lex_le(#[trigger] n[a].path@, #[trigger] n[b].path@) by {
                if b < j {
                    assert(n[a] == s0[a] && n[b] == s0[b]);
                } else if b == j {
                    assert(n[a] == s0[a]);
                } else if a == j {
                    assert(n[b] == s0[b - 1]);
                    if b - 1 > j {
                        crate::scan::lemma_lex_transitive(x.path@, s0[j as int].path@, s0[b - 1].path@);
                    }
                } else if a < j {
                    assert(n[a] == s0[a] && n[b] == s0[b - 1]);
                } else {
                    assert(n[a] == s0[a - 1] && n[b] == s0[b - 1]);
                }
            }
        }
    }
}

fn insert_error(v: &mut Vec<ManifestError>, x: ManifestError)
    ensures
        final(v)@.len() == old(v)@.len() + 1,
        final(v)@.to_multiset() == old(v)@.to_multiset().insert(x),
        (forall|a: int, b: int| 0 <= a < b < old(v)@.len() ==> lex_le(#[trigger] old(v)@[a].path@, #[trigger] old(v)@[b].path@))
            ==> forall|a: int, b: int| 0 <= a < b < final(v)@.len() ==> lex_le(#[trigger] final(v)@[a].path@, #[trigger] final(v)@[b].path@),
{
    let ghost s0 = v@;
    let mut j: usize = 0;
    while j < v.len() && lex_le_exec(chars_of(v[j].path.as_str()).as_slice(), chars_of(x.path.as_str()).as_slice())
        invariant
            j <= v@.len(),
            s0 == v@,
            forall|k: int| 0 <= k < j ==> lex_le(#[trigger] v@[k].path@, x.path@),
        decreases v@.len() - j,
    {
        j = j + 1;
    }
    proof {
        if j < s0.len() {
            crate::scan::lemma_lex_total(s0[j as int].path@, x.path@);
        }
    }
    let ghost xv = x;
    v.insert(j, x);
    proof {
        let n = v@;
        vstd::seq_lib::to_multiset_insert(s0, j as int, xv);
        if forall|a: int, b: int| 0 <= a < b < s0.len() ==> lex_le(#[trigger] s0[a].path@, #[trigger] s0[b].path@) {
            assert forall|a: int, b: int| 0 <= a < b < n.len() implies lex_le(#[trigger] n[a].path@, #[trigger] n[b].path@) by {
                if b < j {
                    assert(n[a] == s0[a] && n[b] == s0[b]);
                } else if b == j {
                    assert(n[a] == s0[a]);
                } else if a == j {
                    assert(n[b] == s0[b - 1]);
                    if b - 1 > j {
                        crate::scan::lemma_lex_transitive(x.path@, s0[j as int].path@, s0[b - 1].path@);
                    }
                } else if a < j {
                    assert(n[a] == s0[a] && n[b] == s0[b - 1]);
                } else {
                    assert(n[a] == s0[a - 1] && n[b] == s0[b - 1]);
                }
            }
        }
    }
}

/// The files and errors of one ingest in path order, with the blob counts
/// and the bytes read (held at `u64::MAX`).
pub fn tally_ingest(results: Vec<ProcessResult>, walk_errors: Vec<ManifestError>) -> (t: IngestTally)
    requires
        results@.len() <= u64::MAX,
    ensures
        t.files@.len() == entry_count(results@),
        t.errors@.len() == walk_errors@.len() + (results@.len() - entry_count(results@)),
        forall|a: int, b: int| 0 <= a < b < t.files@.len() ==> lex_le(#[trigger] t.files@[a].path@, #[trigger] t.files@[b].path@),
        forall|a: int, b: int| 0 <= a < b < t.errors@.len() ==> lex_le(#[trigger] t.errors@[a].path@, #[trigger] t.errors@[b].path@),
        t.new_blobs == stored_count(results@, true),
        t.existing_blobs == stored_count(results@, false),
        t.bytes_read as nat == size_sum(read_sizes(results@)),
        t.files@.to_multiset() == entries_of(results@).to_multiset(),
        t.errors@.to_multiset() == walk_errors@.to_multiset().add(errors_of(results@).to_multiset()),
{
    let ghost rv = results@;
    proof { lemma_stored_bound(rv); }
    let mut files: Vec<ManifestEntry> = Vec::new();
    let mut errors: Vec<ManifestError> = Vec::new();
    let mut walk = walk_errors;
    let ghost wn = walk@.len();
    let ghost w0 = walk@;
    proof {
        broadcast use vstd::seq_lib::group_to_multiset_ensures;
        assert(errors@.to_multiset().add(walk@.to_multiset()) =~= w0.to_multiset());
    }
    while walk.len() > 0
        invariant
            errors@.len() + walk@.len() == wn,
            errors@.to_multiset().add(walk@.to_multiset()) == w0.to_multiset(),
            forall|a: int, b: int| 0 <= a < b < errors@.len() ==> lex_le(#[trigger] errors@[a].path@, #[trigger] errors@[b].path@),
        decreases walk@.len(),
    {
        let ghost wb = walk@;
        let e = walk.pop().unwrap();
        proof {
            broadcast use vstd::seq_lib::group_to_multiset_ensures;
            assert(wb =~= walk@.push(e));
        }
        insert_error(&mut errors, e);
        proof {
            broadcast use vstd::seq_lib::group_to_multiset_ensures;
            assert(errors@.to_multiset().add(walk@.to_multiset()) =~= w0.to_multiset());
        }
    }
    proof {
        broadcast use vstd::seq_lib::group_to_multiset_ensures;
        assert(walk@.to_multiset() =~= vstd::multiset::Multiset::empty());
    }
    let mut new_blobs: u64 = 0;
    let mut existing: u64 = 0;
    let mut bytes: u64 = 0;
    let mut rest = results;
    let ghost mut i: int = 0;
    assert(rv.skip(0) =~= rv);
    assert(rv.take(0) =~= Seq::<ProcessResult>::empty());
    while rest.len() > 0
        invariant
            0 <= i <= rv.len(),
            rv.len() <= u64::MAX,
            rest@ == rv.skip(i),
            stored_count(rv, true) + stored_count(rv, false) <= rv.len(),
            files@.len() == entry_count(rv.take(i)),
            errors@.len() == wn + (i - entry_count(rv.take(i))),
            entry_count(rv.take(i)) <= i,
            forall|a: int, b: int| 0 <= a < b < files@.len() ==> lex_le(#[trigger] files@[a].path@, #[trigger] files@[b].path@),
            forall|a: int, b: int| 0 <= a < b < errors@.len() ==> lex_le(#[trigger] errors@[a].path@, #[trigger] errors@[b].path@),
            new_blobs == stored_count(rv.take(i), true),
            existing == stored_count(rv.take(i), false),
            stored_count(rv.take(i), true) + stored_count(rv.take(i), false) <= i,
            bytes as nat == size_sum(read_sizes(rv.take(i))),
            files@.to_multiset() == entries_of(rv.take(i)).to_multiset(),
            errors@.to_multiset() == w0.to_multiset().add(errors_of(rv.take(i)).to_multiset()),
        decreases rest@.len(),
    {
        let r = rest.remove(0);
        assert(rv.skip(i)[0] == r);
        assert(rv.take(i + 1).drop_last() =~= rv.take(i));
        assert(rv.take(i + 1).last() == r);
        proof { lemma_stored_bound(rv.take(i + 1)); }
        proof {
            broadcast use vstd::seq_lib::group_to_multiset_ensures;
        }
        match r {
            ProcessResult::Cached(entry) => {
                insert_entry(&mut files, entry);
            },
            ProcessResult::Stored { entry, new_blob, bytes_read } => {
                insert_entry(&mut files, entry);
                assert(read_sizes(rv.take(i + 1)) == read_sizes(rv.take(i)) + seq![bytes_read]);
                assert((read_sizes(rv.take(i)) + seq![bytes_read]).drop_last() =~= read_sizes(rv.take(i)));
                bytes = bytes.saturating_add(bytes_read);
                if new_blob {
                    new_blobs = new_blobs + 1;
                } else {
                    existing = existing + 1;
                }
            },
            ProcessResult::Error(error) => {
                let ghost ev = error;
                insert_error(&mut errors, error);
                proof {
                    broadcast use vstd::seq_lib::group_to_multiset_ensures;
                    assert(errors_of(rv.take(i + 1)) == errors_of(rv.take(i)).push(ev));
                    assert(w0.to_multiset().add(errors_of(rv.take(i)).push(ev).to_multiset())
                        =~= w0.to_multiset().add(errors_of(rv.take(i)).to_multiset()).insert(ev));
                }
                assert(read_sizes(rv.take(i + 1)) =~= read_sizes(rv.take(i)));
            },
        }
        proof {
            assert(rv.skip(i).drop_first() =~= rv.skip(i + 1));
            i = i + 1;
        }
    }
    assert(rv.take(i) =~= rv);
    IngestTally { files, errors, new_blobs, existing_blobs: existing, bytes_read: bytes }
}

} // verus!
