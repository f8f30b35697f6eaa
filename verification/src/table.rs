//! The `.sptbl` container: a 40-byte header, a key index, a row index and the
//! concatenated encoded rows.

use vstd::prelude::*;
use crate::bytes::{le16, le32, le64, read16, read32, read64, u16_at, u32_at, u64_at, push_u16, push_u32, push_u64, push_bytes, lemma_read16_le16, lemma_read32_le32, lemma_read64_le64, lemma_read32_window};
use crate::digest::{blake3_digest, digest_bytes};
use crate::text::{chars_of, decimal, hex, hex_vec, push_decimal, push_str, push_chars, string_of};

verus! {

pub const FORMAT_VERSION: u16 = 1;
pub const HEADER_BYTES: u32 = 40;
pub const KEY_ENTRY_BYTES: u32 = 12;
/// Bit 0 of `flags`: the key index is present.
pub const FLAG_KEY_INDEX: u16 = 1;

/// The magic that opens every table: `SPK1`.
pub open spec fn magic() -> Seq<u8> {
    seq![0x53u8, 0x50u8, 0x4Bu8, 0x31u8]
}

/// One encoded row plus the canonical id it is looked up by.
#[derive(Debug)]
pub struct Row {
    pub key: String,
    pub bytes: Vec<u8>,
}

/// What a structurally valid table says about itself.
#[derive(Debug, Clone, Copy, PartialEq, Eq)]
pub struct TableView {
    pub row_type_id: i32,
    pub row_count: u32,
}

/// The three regions that follow the header.
#[derive(Debug, Clone, Copy, PartialEq, Eq)]
pub enum TableRegion {
    KeyIndex,
    RowIndex,
    RowData,
}

/// Why a table could not be written or read.
#[derive(Debug, Clone, PartialEq, Eq)]
pub enum TableError {
    /// Two neighbouring rows are not in strictly ascending key order.
    Unsorted { position: usize, first: String, second: String },
    /// The rows do not fit the 32-bit offsets.
    TooLarge,
    TooShort { length: usize },
    BadMagic,
    BadFormatVersion { found: u16 },
    ReservedFlags { flags: u16 },
    NoKeyIndex,
    ReservedHeaderBytes,
    KeyIndexOverflow { row_count: u32 },
    RowIndexOverflow { row_count: u32 },
    OverlapsHeader { region: TableRegion, offset: u32 },
    ExtentOverflow { region: TableRegion },
    PastEnd { region: TableRegion, end: u32, length: usize },
    RegionsOverlap { first: TableRegion, second: TableRegion },
    WrongLength { length: usize, expected: u32 },
    RowIndexStart { value: u32 },
    RowIndexNotIncreasing { index: u32 },
    RowIndexEnd { end: u32, expected: u32 },
    KeyOrdinal { index: u32, ordinal: u32, row_count: u32 },
    KeyIndexUnsorted { index: u32 },
    DataWithoutRows { bytes: u32 },
}

// ----- the reader's rules ---------------------------------------------------

pub open spec fn region_at(b: Seq<u8>, r: TableRegion) -> (nat, nat) {
    let rc = read32(b, 12);
    match r {
        TableRegion::KeyIndex => (read32(b, 16), 12 * rc),
        TableRegion::RowIndex => (read32(b, 20), 4 * (rc + 1)),
        TableRegion::RowData => (read32(b, 24), read32(b, 28)),
    }
}

pub open spec fn region_error(b: Seq<u8>, r: TableRegion) -> Option<TableError> {
    let (offset, length) = region_at(b, r);
    if offset < 40 {
        Some(TableError::OverlapsHeader { region: r, offset: offset as u32 })
    } else if offset + length > u32::MAX {
        Some(TableError::ExtentOverflow { region: r })
    } else if offset + length > b.len() {
        Some(TableError::PastEnd { region: r, end: (offset + length) as u32, length: b.len() as usize })
    } else {
        None
    }
}

pub open spec fn regions_overlap(b: Seq<u8>, x: TableRegion, y: TableRegion) -> bool {
    let (xo, xl) = region_at(b, x);
    let (yo, yl) = region_at(b, y);
    xl > 0 && yl > 0 && xo < yo + yl && yo < xo + xl
}

pub open spec fn row_offset(b: Seq<u8>, i: nat) -> nat {
    read32(b, (read32(b, 20) + 4 * i) as int)
}

/// The first row-index entry, from `i` on, that does not increase.
pub open spec fn first_flat_offset(b: Seq<u8>, count: nat, i: nat) -> Option<nat>
    decreases count + 1 - i,
{
    if i > count {
        None
    } else if row_offset(b, i) <= row_offset(b, (i - 1) as nat) {
        Some(i)
    } else {
        first_flat_offset(b, count, i + 1)
    }
}

pub open spec fn key_hash_at(b: Seq<u8>, i: nat) -> nat {
    read64(b, (read32(b, 16) + 12 * i) as int)
}

pub open spec fn key_ordinal_at(b: Seq<u8>, i: nat) -> nat {
    read32(b, (read32(b, 16) + 12 * i + 8) as int)
}

pub open spec fn pair_lt(a: (nat, nat), c: (nat, nat)) -> bool {
    a.0 < c.0 || (a.0 == c.0 && a.1 < c.1)
}

/// The first key-index entry, from `i` on, that breaks a rule.
pub open spec fn first_bad_key(b: Seq<u8>, count: nat, i: nat) -> Option<TableError>
    decreases count - i,
{
    if i >= count {
        None
    } else if key_ordinal_at(b, i) >= count {
        Some(TableError::KeyOrdinal { index: i as u32, ordinal: key_ordinal_at(b, i) as u32, row_count: count as u32 })
    } else if i > 0 && pair_lt((key_hash_at(b, i), key_ordinal_at(b, i)), (key_hash_at(b, (i - 1) as nat), key_ordinal_at(b, (i - 1) as nat))) {
        Some(TableError::KeyIndexUnsorted { index: i as u32 })
    } else {
        first_bad_key(b, count, i + 1)
    }
}

/// Every structural rule a reader applies, in the order it applies them; the
/// first rule broken decides the error.
pub open spec fn header_error(b: Seq<u8>) -> Option<TableError> {
    let rc = read32(b, 12);
    if b.len() < 40 {
        Some(TableError::TooShort { length: b.len() as usize })
    } else if b.subrange(0, 4) != magic() {
        Some(TableError::BadMagic)
    } else if read16(b, 4) != 1 {
        Some(TableError::BadFormatVersion { found: read16(b, 4) as u16 })
    } else if read16(b, 6) > 1 {
        Some(TableError::ReservedFlags { flags: read16(b, 6) as u16 })
    } else if read16(b, 6) == 0 {
        Some(TableError::NoKeyIndex)
    } else if b.subrange(32, 40) != Seq::new(8, |i: int| 0u8) {
        Some(TableError::ReservedHeaderBytes)
    } else if 12 * rc > u32::MAX {
        Some(TableError::KeyIndexOverflow { row_count: rc as u32 })
    } else if 4 * (rc + 1) > u32::MAX {
        Some(TableError::RowIndexOverflow { row_count: rc as u32 })
    } else if region_error(b, TableRegion::KeyIndex) is Some {
        region_error(b, TableRegion::KeyIndex)
    } else if region_error(b, TableRegion::RowIndex) is Some {
        region_error(b, TableRegion::RowIndex)
    } else if region_error(b, TableRegion::RowData) is Some {
        region_error(b, TableRegion::RowData)
    } else if regions_overlap(b, TableRegion::KeyIndex, TableRegion::RowIndex) {
        Some(TableError::RegionsOverlap { first: TableRegion::KeyIndex, second: TableRegion::RowIndex })
    } else if regions_overlap(b, TableRegion::KeyIndex, TableRegion::RowData) {
        Some(TableError::RegionsOverlap { first: TableRegion::KeyIndex, second: TableRegion::RowData })
    } else if regions_overlap(b, TableRegion::RowIndex, TableRegion::RowData) {
        Some(TableError::RegionsOverlap { first: TableRegion::RowIndex, second: TableRegion::RowData })
    } else if read32(b, 24) + read32(b, 28) != b.len() {
        Some(TableError::WrongLength { length: b.len() as usize, expected: (read32(b, 24) + read32(b, 28)) as u32 })
    } else {
        None
    }
}

/// Every structural rule a reader applies, in the order it applies them; the
/// first rule broken decides the error.
pub open spec fn check_table(b: Seq<u8>) -> Result<TableView, TableError> {
    match header_error(b) {
        Some(e) => Err(e),
        None => check_row_index(b),
    }
}

/// The row-index rules, applied once the header and regions are sound.
pub open spec fn check_row_index(b: Seq<u8>) -> Result<TableView, TableError> {
    let rc = read32(b, 12);
    if row_offset(b, 0) != 0 {
        Err(TableError::RowIndexStart { value: row_offset(b, 0) as u32 })
    } else if first_flat_offset(b, rc, 1) is Some {
        Err(TableError::RowIndexNotIncreasing { index: first_flat_offset(b, rc, 1).unwrap() as u32 })
    } else {
        check_key_index(b)
    }
}

/// The key-index rules, applied once the row index is sound.
pub open spec fn check_key_index(b: Seq<u8>) -> Result<TableView, TableError> {
    let rc = read32(b, 12);
    if row_offset(b, rc) != read32(b, 28) {
        Err(TableError::RowIndexEnd { end: row_offset(b, rc) as u32, expected: read32(b, 28) as u32 })
    } else if first_bad_key(b, rc, 0) is Some {
        Err(first_bad_key(b, rc, 0).unwrap())
    } else if rc == 0 && read32(b, 28) != 0 {
        Err(TableError::DataWithoutRows { bytes: read32(b, 28) as u32 })
    } else {
        Ok(TableView { row_type_id: #[verifier::truncate] ((read32(b, 8) as u32) as i32), row_count: rc as u32 })
    }
}

/// The rows of a table that passed `check_table`.
pub open spec fn table_rows(b: Seq<u8>) -> Seq<Seq<u8>> {
    let data = read32(b, 24) as int;
    Seq::new(read32(b, 12), |i: int| b.subrange(data + row_offset(b, i as nat), data + row_offset(b, (i + 1) as nat)))
}

fn region_values(bytes: &[u8], region: TableRegion) -> (r: (u32, u64))
    requires
        bytes@.len() >= 40,
    ensures
        r.0 as nat == region_at(bytes@, region).0,
        r.1 as nat == region_at(bytes@, region).1,
{
    let rc = u32_at(bytes, 12) as u64;
    match region {
        TableRegion::KeyIndex => (u32_at(bytes, 16), 12 * rc),
        TableRegion::RowIndex => (u32_at(bytes, 20), 4 * (rc + 1)),
        TableRegion::RowData => (u32_at(bytes, 24), u32_at(bytes, 28) as u64),
    }
}

fn check_region(bytes: &[u8], region: TableRegion) -> (r: Option<TableError>)
    requires
        bytes@.len() >= 40,
    ensures
        r == region_error(bytes@, region),
{
    let (offset, length) = region_values(bytes, region);
    if offset < HEADER_BYTES {
        return Some(TableError::OverlapsHeader { region, offset });
    }
    let end: u64 = offset as u64 + length;
    if end > 4294967295 {
        return Some(TableError::ExtentOverflow { region });
    }
    if end > bytes.len() as u64 {
        return Some(TableError::PastEnd { region, end: end as u32, length: bytes.len() });
    }
    None
}

fn overlap(bytes: &[u8], x: TableRegion, y: TableRegion) -> (r: bool)
    requires
        bytes@.len() >= 40,
    ensures
        r == regions_overlap(bytes@, x, y),
{
    let (xo, xl) = region_values(bytes, x);
    let (yo, yl) = region_values(bytes, y);
    xl > 0 && yl > 0 && (xo as u64) < (yo as u64) + yl && (yo as u64) < (xo as u64) + xl
}

fn validate_header(bytes: &[u8]) -> (r: Option<TableError>)
    ensures
        r == header_error(bytes@),
{
    let n = bytes.len();
    if n < 40 {
        return Some(TableError::TooShort { length: n });
    }
    let ghost b = bytes@;
    if !(bytes[0] == 0x53 && bytes[1] == 0x50 && bytes[2] == 0x4B && bytes[3] == 0x31) {
        assert(b.subrange(0, 4) != magic()) by {
            if b.subrange(0, 4) == magic() {
                assert(b[0] == b.subrange(0, 4)[0]);
                assert(b[1] == b.subrange(0, 4)[1]);
                assert(b[2] == b.subrange(0, 4)[2]);
                assert(b[3] == b.subrange(0, 4)[3]);
            }
        }
        return Some(TableError::BadMagic);
    }
    assert(b.subrange(0, 4) =~= magic());
    let format_version = u16_at(bytes, 4);
    if format_version != FORMAT_VERSION {
        return Some(TableError::BadFormatVersion { found: format_version });
    }
    let flags = u16_at(bytes, 6);
    if flags > 1 {
        return Some(TableError::ReservedFlags { flags });
    }
    if flags == 0 {
        return Some(TableError::NoKeyIndex);
    }
    let reserved = u64_at(bytes, 32);
    if reserved != 0 {
        assert(b.subrange(32, 40) != Seq::new(8, |i: int| 0u8)) by {
            if b.subrange(32, 40) == Seq::new(8, |i: int| 0u8) {
                assert forall|k: int| 32 <= k < 40 implies b[k] == 0u8 by {
                    assert(b[k] == b.subrange(32, 40)[k - 32]);
                }
            }
        }
        return Some(TableError::ReservedHeaderBytes);
    }
    assert(b.subrange(32, 40) =~= Seq::new(8, |i: int| 0u8));

    let row_count = u32_at(bytes, 12);
    let row_data_offset = u32_at(bytes, 24);
    let row_data_bytes = u32_at(bytes, 28);
    if 12 * (row_count as u64) > 4294967295 {
        return Some(TableError::KeyIndexOverflow { row_count });
    }
    if 4 * (row_count as u64 + 1) > 4294967295 {
        return Some(TableError::RowIndexOverflow { row_count });
    }
    let key_region = check_region(bytes, TableRegion::KeyIndex);
    if key_region.is_some() {
        return key_region;
    }
    let row_region = check_region(bytes, TableRegion::RowIndex);
    if row_region.is_some() {
        return row_region;
    }
    let data_region = check_region(bytes, TableRegion::RowData);
    if data_region.is_some() {
        return data_region;
    }
    if overlap(bytes, TableRegion::KeyIndex, TableRegion::RowIndex) {
        return Some(TableError::RegionsOverlap { first: TableRegion::KeyIndex, second: TableRegion::RowIndex });
    }
    if overlap(bytes, TableRegion::KeyIndex, TableRegion::RowData) {
        return Some(TableError::RegionsOverlap { first: TableRegion::KeyIndex, second: TableRegion::RowData });
    }
    if overlap(bytes, TableRegion::RowIndex, TableRegion::RowData) {
        return Some(TableError::RegionsOverlap { first: TableRegion::RowIndex, second: TableRegion::RowData });
    }
    let expected: u64 = row_data_offset as u64 + row_data_bytes as u64;
    if expected != n as u64 {
        return Some(TableError::WrongLength { length: n, expected: expected as u32 });
    }

    None
}

/// Applies every structural rule a reader checks, so that a pack check
/// rejects exactly what the runtime would reject.
pub fn validate(bytes: &[u8]) -> (r: Result<TableView, TableError>)
    ensures
        r == check_table(bytes@),
{
    if let Some(error) = validate_header(bytes) {
        return Err(error);
    }
    let ghost b = bytes@;
    let n = bytes.len();
    let row_type_id = u32_at(bytes, 8);
    let row_count = u32_at(bytes, 12);
    let row_data_bytes = u32_at(bytes, 28);
    let key_index_offset = u32_at(bytes, 16) as usize;
    let row_index_offset = u32_at(bytes, 20) as usize;
    let rc = row_count as usize;
    assert(check_table(b) == check_row_index(b));
    assert(row_index_offset + 4 * (rc + 1) <= b.len());
    assert(key_index_offset + 12 * rc <= b.len());
    let first = u32_at(bytes, row_index_offset);
    if first != 0 {
        return Err(TableError::RowIndexStart { value: first });
    }
    let mut previous_end: u32 = first;
    let mut index: usize = 1;
    while index <= rc
        invariant
            1 <= index <= rc + 1,
            b == bytes@,
            n == b.len(),
            rc as nat == read32(b, 12),
            row_index_offset as nat == read32(b, 20),
            row_index_offset + 4 * (rc + 1) <= b.len(),
            previous_end as nat == row_offset(b, (index - 1) as nat),
            check_table(b) == check_row_index(b),
            row_offset(b, 0) == 0,
            first_flat_offset(b, rc as nat, 1) == first_flat_offset(b, rc as nat, index as nat),
        decreases rc + 1 - index,
    {
        let value = u32_at(bytes, row_index_offset + index * 4);
        assert(value as nat == row_offset(b, index as nat));
        assert((index - 1) as nat + 1 == index as nat);
        if value <= previous_end {
            return Err(TableError::RowIndexNotIncreasing { index: index as u32 });
        }
        previous_end = value;
        index = index + 1;
    }
    assert(check_table(b) == check_key_index(b));
    if previous_end != row_data_bytes {
        return Err(TableError::RowIndexEnd { end: previous_end, expected: row_data_bytes });
    }

    let mut previous_hash: u64 = 0;
    let mut previous_ordinal: u32 = 0;
    let mut index: usize = 0;
    while index < rc
        invariant
            index <= rc,
            b == bytes@,
            n == b.len(),
            rc as nat == read32(b, 12),
            key_index_offset as nat == read32(b, 16),
            key_index_offset + 12 * rc <= b.len(),
            check_table(b) == check_key_index(b),
            row_offset(b, rc as nat) == read32(b, 28),
            row_count as nat == read32(b, 12),
            index > 0 ==> previous_hash as nat == key_hash_at(b, (index - 1) as nat),
            index > 0 ==> previous_ordinal as nat == key_ordinal_at(b, (index - 1) as nat),
            first_bad_key(b, rc as nat, 0) == first_bad_key(b, rc as nat, index as nat),
        decreases rc - index,
    {
        let base = key_index_offset + index * 12;
        let hash = u64_at(bytes, base);
        let ordinal = u32_at(bytes, base + 8);
        assert(hash as nat == key_hash_at(b, index as nat));
        assert(ordinal as nat == key_ordinal_at(b, index as nat));
        if ordinal as usize >= rc {
            assert(first_bad_key(b, rc as nat, index as nat) == Some(TableError::KeyOrdinal { index: index as u32, ordinal, row_count }));
            return Err(TableError::KeyOrdinal { index: index as u32, ordinal, row_count });
        }
        if index > 0 && (hash < previous_hash || (hash == previous_hash && ordinal < previous_ordinal)) {
            return Err(TableError::KeyIndexUnsorted { index: index as u32 });
        }
        previous_hash = hash;
        previous_ordinal = ordinal;
        index = index + 1;
    }
    if row_count == 0 && row_data_bytes != 0 {
        return Err(TableError::DataWithoutRows { bytes: row_data_bytes });
    }
    Ok(TableView { row_type_id: #[verifier::truncate] (row_type_id as i32), row_count })
}

} // verus!

verus! {

// ----- rows -----------------------------------------------------------------

pub proof fn lemma_offsets_increase(b: Seq<u8>, count: nat, j: nat, i: nat)
    requires
        1 <= j <= i <= count,
        first_flat_offset(b, count, j) is None,
    ensures
        row_offset(b, i) > row_offset(b, (i - 1) as nat),
    decreases i - j,
{
    if i > j {
        lemma_offsets_increase(b, count, j + 1, i);
    }
}

pub proof fn lemma_offsets_monotone(b: Seq<u8>, count: nat, i: nat, k: nat)
    requires
        i <= k <= count,
        first_flat_offset(b, count, 1) is None,
    ensures
        row_offset(b, i) <= row_offset(b, k),
        i < k ==> row_offset(b, i) < row_offset(b, k),
    decreases k - i,
{
    if i < k {
        lemma_offsets_increase(b, count, 1, k);
        lemma_offsets_monotone(b, count, i, (k - 1) as nat);
    }
}

/// The encoded rows of a table, one byte vector per row, in row order.
pub fn rows(bytes: &[u8]) -> (r: Result<Vec<Vec<u8>>, TableError>)
    ensures
        r matches Err(e) ==> check_table(bytes@) == Err::<TableView, TableError>(e),
        r matches Ok(v) ==> check_table(bytes@) is Ok && v@.len() == table_rows(bytes@).len()
            && forall|i: int| 0 <= i < v@.len() ==> #[trigger] v@[i]@ == table_rows(bytes@)[i],
        check_table(bytes@) is Ok ==> r is Ok,
{
    let view = match validate(bytes) {
        Ok(view) => view,
        Err(error) => return Err(error),
    };
    let ghost b = bytes@;
    let n = bytes.len();
    let row_index_offset = u32_at(bytes, 20) as usize;
    let row_data_offset = u32_at(bytes, 24) as usize;
    let rc = view.row_count as usize;
    let mut out: Vec<Vec<u8>> = Vec::new();
    let mut index: usize = 0;
    while index < rc
        invariant
            index <= rc,
            b == bytes@,
            n == b.len(),
            check_table(b) is Ok,
            rc as nat == read32(b, 12),
            row_index_offset as nat == read32(b, 20),
            row_data_offset as nat == read32(b, 24),
            out@.len() == index,
            forall|i: int| 0 <= i < index ==> #[trigger] out@[i]@ == table_rows(b)[i],
        decreases rc - index,
    {
        proof {
            lemma_offsets_monotone(b, rc as nat, index as nat, (index + 1) as nat);
            lemma_offsets_monotone(b, rc as nat, (index + 1) as nat, rc as nat);
        }
        let start = u32_at(bytes, row_index_offset + index * 4) as usize;
        let end = u32_at(bytes, row_index_offset + (index + 1) * 4) as usize;
        let mut row: Vec<u8> = Vec::new();
        let mut k = row_data_offset + start;
        while k < row_data_offset + end
            invariant
                row_data_offset + start <= k <= row_data_offset + end <= n,
                n == bytes@.len(),
                row@ == bytes@.subrange((row_data_offset + start) as int, k as int),
            decreases row_data_offset + end - k,
        {
            row.push(bytes[k]);
            assert(bytes@.subrange((row_data_offset + start) as int, k + 1)
                =~= bytes@.subrange((row_data_offset + start) as int, k as int).push(bytes@[k as int]));
            k = k + 1;
        }
        out.push(row);
        index = index + 1;
    }
    Ok(out)
}

} // verus!

verus! {

// ----- the writer -----------------------------------------------------------

impl View for Row {
    type V = (Seq<char>, Seq<u8>);

    open spec fn view(&self) -> (Seq<char>, Seq<u8>) {
        (self.key@, self.bytes@)
    }
}

/// Lexicographic order on character sequences, which is the byte order of
/// their UTF-8 encodings.
pub open spec fn key_lt(a: Seq<char>, c: Seq<char>) -> bool
    decreases a.len(),
{
    if c.len() == 0 {
        false
    } else if a.len() == 0 {
        true
    } else if a[0] != c[0] {
        (a[0] as u32) < (c[0] as u32)
    } else {
        key_lt(a.drop_first(), c.drop_first())
    }
}

pub fn key_less(a: &[char], c: &[char]) -> (r: bool)
    ensures
        r == key_lt(a@, c@),
{
    let mut i: usize = 0;
    assert(a@.subrange(0, a@.len() as int) =~= a@);
    assert(c@.subrange(0, c@.len() as int) =~= c@);
    assert(a@.subrange(0, 0) =~= c@.subrange(0, 0));
    while i < a.len() && i < c.len() && a[i] == c[i]
        invariant
            i <= a@.len(),
            i <= c@.len(),
            a@.subrange(0, i as int) == c@.subrange(0, i as int),
            key_lt(a@, c@) == key_lt(a@.subrange(i as int, a@.len() as int), c@.subrange(i as int, c@.len() as int)),
        decreases a@.len() - i,
    {
        assert(a@.subrange(i + 1, a@.len() as int) =~= a@.subrange(i as int, a@.len() as int).drop_first());
        assert(c@.subrange(i + 1, c@.len() as int) =~= c@.subrange(i as int, c@.len() as int).drop_first());
        assert(a@.subrange(0, i + 1) =~= a@.subrange(0, i as int).push(a@[i as int]));
        assert(c@.subrange(0, i + 1) =~= c@.subrange(0, i as int).push(c@[i as int]));
        i = i + 1;
    }
    if i == c.len() {
        false
    } else if i == a.len() {
        true
    } else {
        (#[verifier::truncate] (a[i] as u32)) < (#[verifier::truncate] (c[i] as u32))
    }
}

/// The first position whose key is not strictly below the next one's.
pub open spec fn first_unsorted(rows: Seq<(Seq<char>, Seq<u8>)>, i: nat) -> Option<nat>
    decreases rows.len() - i,
{
    if i + 1 >= rows.len() {
        None
    } else if !key_lt(rows[i as int].0, rows[i + 1 as int].0) {
        Some(i)
    } else {
        first_unsorted(rows, i + 1)
    }
}

pub open spec fn total_len(rows: Seq<(Seq<char>, Seq<u8>)>) -> nat
    decreases rows.len(),
{
    if rows.len() == 0 {
        0
    } else {
        total_len(rows.drop_last()) + rows.last().1.len()
    }
}

/// First 8 bytes of the BLAKE3 digest of the id's UTF-8 bytes, little-endian.
pub open spec fn key_hash_of(key: Seq<char>) -> u64 {
    read64(blake3_digest(vstd::utf8::encode_utf8(key)), 0) as u64
}

pub open spec fn key_pairs(rows: Seq<(Seq<char>, Seq<u8>)>) -> Seq<(u64, u32)> {
    Seq::new(rows.len(), |i: int| (key_hash_of(rows[i].0), i as u32))
}

pub open spec fn pair_le(a: (u64, u32), c: (u64, u32)) -> bool {
    a.0 < c.0 || (a.0 == c.0 && a.1 <= c.1)
}

pub open spec fn insert_sorted(s: Seq<(u64, u32)>, x: (u64, u32)) -> Seq<(u64, u32)>
    decreases s.len(),
{
    if s.len() == 0 {
        seq![x]
    } else if pair_le(s.last(), x) {
        s.push(x)
    } else {
        insert_sorted(s.drop_last(), x).push(s.last())
    }
}

/// The key index order: ascending by hash, then by ordinal.
pub open spec fn sort_pairs(s: Seq<(u64, u32)>) -> Seq<(u64, u32)>
    decreases s.len(),
{
    if s.len() == 0 {
        s
    } else {
        insert_sorted(sort_pairs(s.drop_last()), s.last())
    }
}

pub open spec fn key_entries(keys: Seq<(u64, u32)>) -> Seq<u8>
    decreases keys.len(),
{
    if keys.len() == 0 {
        Seq::<u8>::empty()
    } else {
        key_entries(keys.drop_last()) + le64(keys.last().0 as nat) + le32(keys.last().1 as nat)
    }
}

pub open spec fn row_offsets(rows: Seq<(Seq<char>, Seq<u8>)>) -> Seq<u8>
    decreases rows.len(),
{
    if rows.len() == 0 {
        le32(0)
    } else {
        row_offsets(rows.drop_last()) + le32(total_len(rows))
    }
}

pub open spec fn row_data(rows: Seq<(Seq<char>, Seq<u8>)>) -> Seq<u8>
    decreases rows.len(),
{
    if rows.len() == 0 {
        Seq::<u8>::empty()
    } else {
        row_data(rows.drop_last()) + rows.last().1
    }
}

#[verifier::opaque]
pub open spec fn table_header(row_type_id: i32, n: nat, data: nat) -> Seq<u8> {
    magic() + le16(1) + le16(1) + le32((#[verifier::truncate] (row_type_id as u32)) as nat) + le32(n) + le32(40)
        + le32(40 + 12 * n) + le32(44 + 16 * n) + le32(data) + Seq::new(8, |i: int| 0u8)
}

/// The bytes of a table holding `rows` under `row_type_id`.
#[verifier::opaque]
pub open spec fn table_bytes(row_type_id: i32, rows: Seq<(Seq<char>, Seq<u8>)>) -> Seq<u8> {
    table_header(row_type_id, rows.len(), total_len(rows)) + key_entries(sort_pairs(key_pairs(rows)))
        + row_offsets(rows) + row_data(rows)
}

pub open spec fn row_views(rows: Seq<Row>) -> Seq<(Seq<char>, Seq<u8>)> {
    rows.map_values(|r: Row| r@)
}

/// The rows fit the container's 32-bit offsets without the offset arithmetic
/// itself overflowing.
pub open spec fn encodable_size(rows: Seq<(Seq<char>, Seq<u8>)>) -> bool {
    &&& 44 + 16 * rows.len() <= u32::MAX
    &&& total_len(rows) <= usize::MAX
    &&& total_len(rows) <= u32::MAX ==> 44 + 16 * rows.len() + total_len(rows) <= u32::MAX
}

/// The id a table row is looked up by: the first 8 bytes of the BLAKE3-256
/// digest of the canonical id, read little-endian.
pub fn key_hash(canonical_id: &str) -> (r: u64)
    ensures
        r == key_hash_of(canonical_id@),
{
    let digest = digest_bytes(canonical_id.as_bytes());
    u64_at(digest.as_slice(), 0)
}

fn insert_key(keys: &mut Vec<(u64, u32)>, x: (u64, u32))
    ensures
        final(keys)@ == insert_sorted(old(keys)@, x),
{
    let ghost s = keys@;
    let mut j = keys.len();
    assert(s.subrange(0, s.len() as int) =~= s);
    assert(s.subrange(s.len() as int, s.len() as int) =~= Seq::<(u64, u32)>::empty());
    while j > 0 && !(keys[j - 1].0 < x.0 || (keys[j - 1].0 == x.0 && keys[j - 1].1 <= x.1))
        invariant
            j <= s.len(),
            keys@ == s,
            insert_sorted(s, x) == insert_sorted(s.subrange(0, j as int), x) + s.subrange(j as int, s.len() as int),
        decreases j,
    {
        let ghost t = s.subrange(0, j as int);
        assert(t.drop_last() =~= s.subrange(0, j - 1));
        assert(insert_sorted(t, x) == insert_sorted(t.drop_last(), x).push(t.last()));
        assert(insert_sorted(s.subrange(0, j - 1), x) + s.subrange(j - 1, s.len() as int)
            =~= insert_sorted(t, x) + s.subrange(j as int, s.len() as int));
        j = j - 1;
    }
    keys.insert(j, x);
    assert(keys@ =~= insert_sorted(s, x)) by {
        if j == 0 {
            assert(s.subrange(0, 0) =~= Seq::<(u64, u32)>::empty());
        } else {
            assert(insert_sorted(s.subrange(0, j as int), x) =~= s.subrange(0, j as int).push(x));
        }
    }
}

fn first_unsorted_exec(rows: &[Row]) -> (r: Option<usize>)
    ensures
        r matches Some(i) ==> i + 1 < rows@.len(),
        r matches Some(i) ==> first_unsorted(row_views(rows@), 0) == Some(i as nat),
        r is None ==> first_unsorted(row_views(rows@), 0) is None,
{
    let ghost views = row_views(rows@);
    let n = rows.len();
    if n == 0 {
        return None;
    }
    let mut i: usize = 0;
    while i < n - 1
        invariant
            n == rows@.len(),
            n > 0,
            views == row_views(rows@),
            i <= n - 1,
            first_unsorted(views, 0) == first_unsorted(views, i as nat),
        decreases n - i,
    {
        let left = chars_of(rows[i].key.as_str());
        let right = chars_of(rows[i + 1].key.as_str());
        if !key_less(left.as_slice(), right.as_slice()) {
            return Some(i);
        }
        i = i + 1;
    }
    None
}

fn total_bytes(rows: &[Row]) -> (total: usize)
    requires
        total_len(row_views(rows@)) <= usize::MAX,
    ensures
        total as nat == total_len(row_views(rows@)),
{
    let ghost views = row_views(rows@);
    let n = rows.len();
    let mut total: usize = 0;
    let mut k: usize = 0;
    while k < n
        invariant
            k <= n,
            n == rows@.len(),
            views == row_views(rows@),
            total_len(views) <= usize::MAX,
            total as nat == total_len(views.take(k as int)),
        decreases n - k,
    {
        proof {
            assert(views.take(k + 1).drop_last() =~= views.take(k as int));
            lemma_total_prefix(views, (k + 1) as nat);
        }
        total = total + rows[k].bytes.len();
        k = k + 1;
    }
    assert(views.take(n as int) =~= views);
    total
}

fn sorted_keys(rows: &[Row]) -> (keys: Vec<(u64, u32)>)
    requires
        rows@.len() <= u32::MAX,
    ensures
        keys@ == sort_pairs(key_pairs(row_views(rows@))),
{
    let ghost views = row_views(rows@);
    let ghost pairs = key_pairs(views);
    let n = rows.len();
    let mut keys: Vec<(u64, u32)> = Vec::new();
    let mut k: usize = 0;
    assert(pairs.take(0) =~= Seq::<(u64, u32)>::empty());
    while k < n
        invariant
            k <= n <= u32::MAX,
            n == rows@.len(),
            views == row_views(rows@),
            pairs == key_pairs(views),
            keys@ == sort_pairs(pairs.take(k as int)),
        decreases n - k,
    {
        let hash = key_hash(rows[k].key.as_str());
        assert(pairs[k as int] == (hash, k as u32));
        assert(pairs.take(k + 1).drop_last() =~= pairs.take(k as int));
        insert_key(&mut keys, (hash, k as u32));
        k = k + 1;
    }
    assert(pairs.take(n as int) =~= pairs);
    keys
}

fn write_keys(out: &mut Vec<u8>, keys: &Vec<(u64, u32)>)
    ensures
        final(out)@ == old(out)@ + key_entries(keys@),
{
    let ghost sorted = keys@;
    let mut k: usize = 0;
    assert(sorted.take(0) =~= Seq::<(u64, u32)>::empty());
    assert(old(out)@ + key_entries(sorted.take(0)) =~= old(out)@);
    while k < keys.len()
        invariant
            k <= keys@.len(),
            keys@ == sorted,
            out@ == old(out)@ + key_entries(sorted.take(k as int)),
        decreases keys@.len() - k,
    {
        assert(sorted.take(k + 1).drop_last() =~= sorted.take(k as int));
        push_u64(out, keys[k].0);
        push_u32(out, keys[k].1);
        assert(out@ =~= old(out)@ + key_entries(sorted.take(k + 1)));
        k = k + 1;
    }
    assert(sorted.take(sorted.len() as int) =~= sorted);
}

fn write_offsets(out: &mut Vec<u8>, rows: &[Row])
    requires
        total_len(row_views(rows@)) <= u32::MAX,
    ensures
        final(out)@ == old(out)@ + row_offsets(row_views(rows@)),
{
    let ghost views = row_views(rows@);
    let n = rows.len();
    let mut cursor: u32 = 0;
    push_u32(out, cursor);
    assert(views.take(0) =~= Seq::<(Seq<char>, Seq<u8>)>::empty());
    let mut k: usize = 0;
    while k < n
        invariant
            k <= n,
            n == rows@.len(),
            views == row_views(rows@),
            total_len(views) <= u32::MAX,
            cursor as nat == total_len(views.take(k as int)),
            out@ == old(out)@ + row_offsets(views.take(k as int)),
        decreases n - k,
    {
        proof {
            assert(views.take(k + 1).drop_last() =~= views.take(k as int));
            lemma_total_prefix(views, (k + 1) as nat);
        }
        cursor = cursor + rows[k].bytes.len() as u32;
        push_u32(out, cursor);
        assert(out@ =~= old(out)@ + row_offsets(views.take(k + 1)));
        k = k + 1;
    }
    assert(views.take(n as int) =~= views);
}

fn write_data(out: &mut Vec<u8>, rows: &[Row])
    ensures
        final(out)@ == old(out)@ + row_data(row_views(rows@)),
{
    let ghost views = row_views(rows@);
    let n = rows.len();
    let mut k: usize = 0;
    assert(views.take(0) =~= Seq::<(Seq<char>, Seq<u8>)>::empty());
    assert(old(out)@ + row_data(views.take(0)) =~= old(out)@);
    while k < n
        invariant
            k <= n,
            n == rows@.len(),
            views == row_views(rows@),
            out@ == old(out)@ + row_data(views.take(k as int)),
        decreases n - k,
    {
        assert(views.take(k + 1).drop_last() =~= views.take(k as int));
        push_bytes(out, rows[k].bytes.as_slice());
        assert(out@ =~= old(out)@ + row_data(views.take(k + 1)));
        k = k + 1;
    }
    assert(views.take(n as int) =~= views);
}

fn write_header(out: &mut Vec<u8>, row_type_id: i32, row_count: u32, row_data_bytes: u32)
    requires
        old(out)@.len() == 0,
        44 + 16 * (row_count as nat) <= u32::MAX,
    ensures
        final(out)@ == table_header(row_type_id, row_count as nat, row_data_bytes as nat),
{
    let key_index_offset: u32 = HEADER_BYTES;
    let row_index_offset: u32 = key_index_offset + KEY_ENTRY_BYTES * row_count;
    let row_data_offset: u32 = row_index_offset + 4 * (row_count + 1);
    out.push(0x53);
    out.push(0x50);
    out.push(0x4B);
    out.push(0x31);
    push_u16(out, FORMAT_VERSION);
    push_u16(out, FLAG_KEY_INDEX);
    push_u32(out, #[verifier::truncate] (row_type_id as u32));
    push_u32(out, row_count);
    push_u32(out, key_index_offset);
    push_u32(out, row_index_offset);
    push_u32(out, row_data_offset);
    push_u32(out, row_data_bytes);
    push_u64(out, 0);
    assert(le64(0) =~= Seq::new(8, |i: int| 0u8));
    reveal(table_header);
    assert(final(out)@ =~= table_header(row_type_id, row_count as nat, row_data_bytes as nat));
}

/// Serialises `rows` into one table. Rows must be sorted by key, strictly
/// ascending: that ordering is what makes a pack digest a pure function of
/// the authored content.
pub fn encode(row_type_id: i32, rows: &[Row]) -> (r: Result<Vec<u8>, TableError>)
    requires
        first_unsorted(row_views(rows@), 0) is None ==> encodable_size(row_views(rows@)),
    ensures
        first_unsorted(row_views(rows@), 0) matches Some(i) ==> (r matches Err(TableError::Unsorted { position, first, second })
            && position == i && first@ == rows@[i as int].key@ && second@ == rows@[i + 1 as int].key@),
        first_unsorted(row_views(rows@), 0) is None && total_len(row_views(rows@)) > u32::MAX ==> r == Err::<Vec<u8>, TableError>(TableError::TooLarge),
        first_unsorted(row_views(rows@), 0) is None && total_len(row_views(rows@)) <= u32::MAX ==> r is Ok,
        r matches Ok(b) ==> b@ == table_bytes(row_type_id, row_views(rows@)),
{
    if let Some(position) = first_unsorted_exec(rows) {
        let first = rows[position].key.clone();
        let second = rows[position + 1].key.clone();
        return Err(TableError::Unsorted { position, first, second });
    }
    let n = rows.len();
    if n > 4294967295 {
        return Err(TableError::TooLarge);
    }
    let row_count = n as u32;
    let total = total_bytes(rows);
    if total > 4294967295 {
        return Err(TableError::TooLarge);
    }
    let mut out: Vec<u8> = Vec::new();
    write_header(&mut out, row_type_id, row_count, total as u32);
    let keys = sorted_keys(rows);
    write_keys(&mut out, &keys);
    write_offsets(&mut out, rows);
    write_data(&mut out, rows);
    proof { reveal(table_bytes); }
    Ok(out)
}

pub proof fn lemma_total_prefix(rows: Seq<(Seq<char>, Seq<u8>)>, k: nat)
    requires
        k <= rows.len(),
    ensures
        total_len(rows.take(k as int)) <= total_len(rows),
    decreases rows.len(),
{
    if k < rows.len() {
        assert(rows.drop_last().take(k as int) =~= rows.take(k as int));
        lemma_total_prefix(rows.drop_last(), k);
    } else {
        assert(rows.take(k as int) =~= rows);
    }
}

} // verus!

verus! {

// ----- what a reader makes of what the writer wrote -------------------------

pub open spec fn pairs_sorted(s: Seq<(u64, u32)>) -> bool {
    forall|i: int, j: int| 0 <= i < j < s.len() ==> pair_le(s[i], s[j])
}

pub open spec fn all_below(s: Seq<(u64, u32)>, m: (u64, u32)) -> bool {
    forall|i: int| 0 <= i < s.len() ==> pair_le(s[i], m)
}

pub open spec fn ordinals_below(s: Seq<(u64, u32)>, n: nat) -> bool {
    forall|i: int| 0 <= i < s.len() ==> (s[i].1 as nat) < n
}

proof fn lemma_insert_sorted(s: Seq<(u64, u32)>, x: (u64, u32), m: (u64, u32), n: nat)
    ensures
        insert_sorted(s, x).len() == s.len() + 1,
        pairs_sorted(s) ==> pairs_sorted(insert_sorted(s, x)),
        all_below(s, m) && pair_le(x, m) ==> all_below(insert_sorted(s, x), m),
        ordinals_below(s, n) && (x.1 as nat) < n ==> ordinals_below(insert_sorted(s, x), n),
    decreases s.len(),
{
    if s.len() > 0 && !pair_le(s.last(), x) {
        let t = s.drop_last();
        lemma_insert_sorted(t, x, m, n);
        lemma_insert_sorted(t, x, s.last(), n);
        let r = insert_sorted(s, x);
        assert(r == insert_sorted(t, x).push(s.last()));
        if pairs_sorted(s) {
            assert(all_below(t, s.last()));
            assert(pairs_sorted(r)) by {
                assert forall|i: int, j: int| 0 <= i < j < r.len() implies pair_le(r[i], r[j]) by {
                    if j == r.len() - 1 {
                        assert(r[j] == s.last());
                    }
                }
            }
        }
        if ordinals_below(s, n) && (x.1 as nat) < n {
            assert(ordinals_below(r, n)) by {
                assert forall|i: int| 0 <= i < r.len() implies (r[i].1 as nat) < n by {
                    if i == r.len() - 1 {
                        assert(r[i] == s[s.len() - 1]);
                    }
                }
            }
        }
    } else if s.len() > 0 {
        let r = insert_sorted(s, x);
        assert(r == s.push(x));
        if pairs_sorted(s) {
            assert(pairs_sorted(r)) by {
                assert forall|i: int, j: int| 0 <= i < j < r.len() implies pair_le(r[i], r[j]) by {
                    if j == r.len() - 1 {
                        assert(pair_le(s[i], s.last()));
                    }
                }
            }
        }
    }
}

proof fn lemma_sort_pairs(s: Seq<(u64, u32)>, n: nat)
    ensures
        sort_pairs(s).len() == s.len(),
        pairs_sorted(sort_pairs(s)),
        ordinals_below(s, n) ==> ordinals_below(sort_pairs(s), n),
    decreases s.len(),
{
    if s.len() > 0 {
        lemma_sort_pairs(s.drop_last(), n);
        lemma_insert_sorted(sort_pairs(s.drop_last()), s.last(), s.last(), n);
        if ordinals_below(s, n) {
            assert(ordinals_below(s.drop_last(), n));
        }
    }
}

proof fn lemma_key_entries(keys: Seq<(u64, u32)>)
    ensures
        key_entries(keys).len() == 12 * keys.len(),
        forall|i: int| 0 <= i < keys.len() ==> #[trigger] key_entries(keys).subrange(12 * i, 12 * i + 8) == le64(keys[i].0 as nat)
            && key_entries(keys).subrange(12 * i + 8, 12 * i + 12) == le32(keys[i].1 as nat),
    decreases keys.len(),
{
    if keys.len() > 0 {
        let t = keys.drop_last();
        lemma_key_entries(t);
        let e = key_entries(keys);
        assert forall|i: int| 0 <= i < keys.len() implies #[trigger] key_entries(keys).subrange(12 * i, 12 * i + 8) == le64(keys[i].0 as nat)
            && key_entries(keys).subrange(12 * i + 8, 12 * i + 12) == le32(keys[i].1 as nat) by {
            if i < t.len() {
                assert(e.subrange(12 * i, 12 * i + 8) =~= key_entries(t).subrange(12 * i, 12 * i + 8));
                assert(e.subrange(12 * i + 8, 12 * i + 12) =~= key_entries(t).subrange(12 * i + 8, 12 * i + 12));
            } else {
                assert(e.subrange(12 * i, 12 * i + 8) =~= le64(keys.last().0 as nat));
                assert(e.subrange(12 * i + 8, 12 * i + 12) =~= le32(keys.last().1 as nat));
            }
        }
    }
}

proof fn lemma_row_offsets(rows: Seq<(Seq<char>, Seq<u8>)>)
    ensures
        row_offsets(rows).len() == 4 * (rows.len() + 1),
        forall|i: int| 0 <= i <= rows.len() ==> #[trigger] row_offsets(rows).subrange(4 * i, 4 * i + 4) == le32(total_len(rows.take(i))),
    decreases rows.len(),
{
    if rows.len() == 0 {
        assert(row_offsets(rows).subrange(0, 4) =~= le32(0));
        assert(rows.take(0) =~= rows);
    } else {
        let t = rows.drop_last();
        lemma_row_offsets(t);
        let o = row_offsets(rows);
        assert forall|i: int| 0 <= i <= rows.len() implies #[trigger] row_offsets(rows).subrange(4 * i, 4 * i + 4) == le32(total_len(rows.take(i))) by {
            if i <= t.len() {
                assert(o.subrange(4 * i, 4 * i + 4) =~= row_offsets(t).subrange(4 * i, 4 * i + 4));
                assert(t.take(i) =~= rows.take(i));
            } else {
                assert(o.subrange(4 * i, 4 * i + 4) =~= le32(total_len(rows)));
                assert(rows.take(i) =~= rows);
            }
        }
    }
}

proof fn lemma_row_data(rows: Seq<(Seq<char>, Seq<u8>)>)
    ensures
        row_data(rows).len() == total_len(rows),
        forall|i: int| 0 <= i < rows.len() ==> #[trigger] row_data(rows).subrange(
            total_len(rows.take(i)) as int, total_len(rows.take(i + 1)) as int) == rows[i].1,
        forall|i: int| 0 <= i < rows.len() ==> total_len(#[trigger] rows.take(i + 1)) == total_len(rows.take(i)) + rows[i].1.len(),
    decreases rows.len(),
{
    if rows.len() > 0 {
        let t = rows.drop_last();
        lemma_row_data(t);
        let d = row_data(rows);
        assert forall|i: int| 0 <= i < rows.len() implies total_len(#[trigger] rows.take(i + 1)) == total_len(rows.take(i)) + rows[i].1.len() by {
            assert(rows.take(i + 1).drop_last() =~= rows.take(i));
        }
        assert forall|i: int| 0 <= i < rows.len() implies #[trigger] row_data(rows).subrange(
            total_len(rows.take(i)) as int, total_len(rows.take(i + 1)) as int) == rows[i].1 by {
            if i < t.len() {
                assert(t.take(i) =~= rows.take(i));
                assert(t.take(i + 1) =~= rows.take(i + 1));
                lemma_total_prefix(t, (i + 1) as nat);
                assert(d.subrange(total_len(rows.take(i)) as int, total_len(rows.take(i + 1)) as int)
                    =~= row_data(t).subrange(total_len(t.take(i)) as int, total_len(t.take(i + 1)) as int));
            } else {
                assert(rows.take(i) =~= t);
                assert(rows.take(i + 1) =~= rows);
                assert(d.subrange(total_len(t) as int, total_len(rows) as int) =~= rows.last().1);
            }
        }
    }
}

proof fn lemma_no_flat(b: Seq<u8>, count: nat, j: nat)
    requires
        1 <= j,
        forall|i: nat| j <= i <= count ==> #[trigger] row_offset(b, i) > row_offset(b, (i - 1) as nat),
    ensures
        first_flat_offset(b, count, j) is None,
    decreases count + 1 - j,
{
    if j <= count {
        lemma_no_flat(b, count, j + 1);
    }
}

proof fn lemma_no_bad_key(b: Seq<u8>, count: nat, j: nat)
    requires
        forall|i: nat| j <= i < count ==> #[trigger] key_ordinal_at(b, i) < count,
        forall|i: nat| j <= i < count && i > 0 ==> !pair_lt((#[trigger] key_hash_at(b, i), key_ordinal_at(b, i)),
            (key_hash_at(b, (i - 1) as nat), key_ordinal_at(b, (i - 1) as nat))),
    ensures
        first_bad_key(b, count, j) is None,
    decreases count - j,
{
    if j < count {
        lemma_no_bad_key(b, count, j + 1);
    }
}

proof fn lemma_layout(row_type_id: i32, rows: Seq<(Seq<char>, Seq<u8>)>)
    ensures
        ({
            let n = rows.len();
            let b = table_bytes(row_type_id, rows);
            &&& b == table_header(row_type_id, n, total_len(rows)) + key_entries(sort_pairs(key_pairs(rows)))
                + row_offsets(rows) + row_data(rows)
            &&& b.len() == 44 + 16 * n + total_len(rows)
            &&& sort_pairs(key_pairs(rows)).len() == n
            &&& table_header(row_type_id, n, total_len(rows)).len() == 40
            &&& key_entries(sort_pairs(key_pairs(rows))).len() == 12 * n
            &&& row_offsets(rows).len() == 4 * (n + 1)
            &&& row_data(rows).len() == total_len(rows)
        }),
{
    reveal(table_bytes);
    reveal(table_header);
    lemma_sort_pairs(key_pairs(rows), rows.len());
    lemma_key_entries(sort_pairs(key_pairs(rows)));
    lemma_row_offsets(rows);
    lemma_row_data(rows);
}

proof fn lemma_header_reads(row_type_id: i32, rows: Seq<(Seq<char>, Seq<u8>)>)
    requires
        encodable_size(rows),
        total_len(rows) <= u32::MAX,
    ensures
        ({
            let n = rows.len();
            let b = table_bytes(row_type_id, rows);
            &&& b.len() >= 40
            &&& b.subrange(0, 4) == magic()
            &&& read16(b, 4) == 1
            &&& read16(b, 6) == 1
            &&& b.subrange(32, 40) == Seq::new(8, |i: int| 0u8)
            &&& read32(b, 12) == n
            &&& read32(b, 16) == 40
            &&& read32(b, 20) == 40 + 12 * n
            &&& read32(b, 24) == 44 + 16 * n
            &&& read32(b, 28) == total_len(rows)
            &&& (#[verifier::truncate] ((read32(b, 8) as u32) as i32)) == row_type_id
        }),
{
    let n = rows.len();
    let t = total_len(rows);
    lemma_layout(row_type_id, rows);
    reveal(table_header);
    let b = table_bytes(row_type_id, rows);
    let h = table_header(row_type_id, n, t);
    assert(b.subrange(0, 40) =~= h);
    assert(b.subrange(0, 4) =~= magic());
    assert(b.subrange(4, 6) =~= le16(1));
    assert(b.subrange(6, 8) =~= le16(1));
    assert(b.subrange(8, 12) =~= le32((#[verifier::truncate] (row_type_id as u32)) as nat));
    assert(b.subrange(12, 16) =~= le32(n));
    assert(b.subrange(16, 20) =~= le32(40));
    assert(b.subrange(20, 24) =~= le32(40 + 12 * n));
    assert(b.subrange(24, 28) =~= le32(44 + 16 * n));
    assert(b.subrange(28, 32) =~= le32(t));
    assert(b.subrange(32, 40) =~= Seq::new(8, |i: int| 0u8));
    lemma_read16_le16(b, 4, 1);
    lemma_read16_le16(b, 6, 1);
    lemma_read32_le32(b, 8, (#[verifier::truncate] (row_type_id as u32)) as nat);
    lemma_read32_le32(b, 12, n);
    lemma_read32_le32(b, 16, 40);
    lemma_read32_le32(b, 20, 40 + 12 * n);
    lemma_read32_le32(b, 24, 44 + 16 * n);
    lemma_read32_le32(b, 28, t);
    let rt = row_type_id;
    assert((#[verifier::truncate] ((#[verifier::truncate] (rt as u32)) as i32)) == rt) by (bit_vector);
}

proof fn lemma_window(x: Seq<u8>, y: Seq<u8>, z: Seq<u8>, a: int, len: int)
    requires
        0 <= a,
        0 <= len,
        a + len <= y.len(),
    ensures
        (x + y + z).subrange(x.len() + a, x.len() + a + len) == y.subrange(a, a + len),
{
    assert((x + y + z).subrange(x.len() + a, x.len() + a + len) =~= y.subrange(a, a + len));
}

proof fn lemma_row_index_reads(row_type_id: i32, rows: Seq<(Seq<char>, Seq<u8>)>)
    requires
        encodable_size(rows),
        total_len(rows) <= u32::MAX,
    ensures
        forall|i: nat| i <= rows.len() ==> #[trigger] row_offset(table_bytes(row_type_id, rows), i)
            == total_len(rows.take(i as int)),
{
    let n = rows.len();
    lemma_layout(row_type_id, rows);
    lemma_header_reads(row_type_id, rows);
    lemma_row_offsets(rows);
    let b = table_bytes(row_type_id, rows);
    let hk = table_header(row_type_id, n, total_len(rows)) + key_entries(sort_pairs(key_pairs(rows)));
    let o = row_offsets(rows);
    let d = row_data(rows);
    assert(b == hk + o + d);
    assert(hk.len() == 40 + 12 * n);
    assert forall|i: nat| i <= n implies #[trigger] row_offset(b, i) == total_len(rows.take(i as int)) by {
        let ii = i as int;
        lemma_window(hk, o, d, 4 * ii, 4);
        lemma_total_prefix(rows, i);
        lemma_read32_le32(b, hk.len() + 4 * ii, total_len(rows.take(ii)));
    }
}

proof fn lemma_key_index_reads(row_type_id: i32, rows: Seq<(Seq<char>, Seq<u8>)>)
    requires
        encodable_size(rows),
        total_len(rows) <= u32::MAX,
    ensures
        forall|i: nat| i < rows.len() ==> #[trigger] key_hash_at(table_bytes(row_type_id, rows), i)
            == sort_pairs(key_pairs(rows))[i as int].0
            && key_ordinal_at(table_bytes(row_type_id, rows), i) == sort_pairs(key_pairs(rows))[i as int].1,
{
    let n = rows.len();
    lemma_layout(row_type_id, rows);
    lemma_header_reads(row_type_id, rows);
    let keys = sort_pairs(key_pairs(rows));
    lemma_key_entries(keys);
    let b = table_bytes(row_type_id, rows);
    let h = table_header(row_type_id, n, total_len(rows));
    let k = key_entries(keys);
    let od = row_offsets(rows) + row_data(rows);
    assert(b =~= h + k + od);
    assert(h.len() == 40);
    assert forall|i: nat| i < n implies #[trigger] key_hash_at(b, i) == keys[i as int].0
        && key_ordinal_at(b, i) == keys[i as int].1 by {
        let ii = i as int;
        lemma_window(h, k, od, 12 * ii, 8);
        lemma_window(h, k, od, 12 * ii + 8, 4);
        lemma_read64_le64(b, 40 + 12 * ii, keys[ii].0 as nat);
        lemma_read32_le32(b, 40 + 12 * ii + 8, keys[ii].1 as nat);
    }
}

proof fn lemma_header_passes(row_type_id: i32, rows: Seq<(Seq<char>, Seq<u8>)>)
    requires
        encodable_size(rows),
        total_len(rows) <= u32::MAX,
    ensures
        check_table(table_bytes(row_type_id, rows)) == check_row_index(table_bytes(row_type_id, rows)),
{
    lemma_layout(row_type_id, rows);
    lemma_header_reads(row_type_id, rows);
}

proof fn lemma_row_index_passes(row_type_id: i32, rows: Seq<(Seq<char>, Seq<u8>)>)
    requires
        encodable_size(rows),
        total_len(rows) <= u32::MAX,
        forall|i: int| 0 <= i < rows.len() ==> #[trigger] rows[i].1.len() > 0,
    ensures
        check_row_index(table_bytes(row_type_id, rows)) == check_key_index(table_bytes(row_type_id, rows)),
        row_offset(table_bytes(row_type_id, rows), rows.len()) == total_len(rows),
{
    let n = rows.len();
    let b = table_bytes(row_type_id, rows);
    lemma_header_reads(row_type_id, rows);
    lemma_row_index_reads(row_type_id, rows);
    lemma_row_data(rows);
    assert forall|i: nat| 1 <= i <= n implies #[trigger] row_offset(b, i) > row_offset(b, (i - 1) as nat) by {
        assert(row_offset(b, i) == total_len(rows.take(i as int)));
        assert(row_offset(b, (i - 1) as nat) == total_len(rows.take(i - 1)));
        assert(rows.take((i - 1) + 1) == rows.take(i as int));
        assert(rows[i - 1].1.len() > 0);
    }
    lemma_no_flat(b, n, 1);
    assert(rows.take(0) =~= Seq::<(Seq<char>, Seq<u8>)>::empty());
    assert(rows.take(n as int) =~= rows);
    assert(row_offset(b, 0) == 0);
}

proof fn lemma_key_index_passes(row_type_id: i32, rows: Seq<(Seq<char>, Seq<u8>)>)
    requires
        encodable_size(rows),
        total_len(rows) <= u32::MAX,
        row_offset(table_bytes(row_type_id, rows), rows.len()) == total_len(rows),
    ensures
        check_key_index(table_bytes(row_type_id, rows)) == Ok::<TableView, TableError>(TableView { row_type_id, row_count: rows.len() as u32 }),
{
    let n = rows.len();
    let keys = sort_pairs(key_pairs(rows));
    let b = table_bytes(row_type_id, rows);
    lemma_header_reads(row_type_id, rows);
    lemma_key_index_reads(row_type_id, rows);
    lemma_sort_pairs(key_pairs(rows), n);
    assert(ordinals_below(key_pairs(rows), n));
    assert forall|i: nat| 0 <= i < n implies #[trigger] key_ordinal_at(b, i) < n by {
        assert(key_hash_at(b, i) == keys[i as int].0);
        assert(key_ordinal_at(b, i) == keys[i as int].1);
    }
    assert forall|i: nat| 0 <= i < n && i > 0 implies !pair_lt((#[trigger] key_hash_at(b, i), key_ordinal_at(b, i)),
        (key_hash_at(b, (i - 1) as nat), key_ordinal_at(b, (i - 1) as nat))) by {
        assert(key_hash_at(b, (i - 1) as nat) == keys[i - 1].0);
        assert(pair_le(keys[i - 1], keys[i as int]));
    }
    lemma_no_bad_key(b, n, 0);
    if n == 0 {
        assert(rows =~= Seq::<(Seq<char>, Seq<u8>)>::empty());
    }
}

proof fn lemma_rows_read_back(row_type_id: i32, rows: Seq<(Seq<char>, Seq<u8>)>)
    requires
        encodable_size(rows),
        total_len(rows) <= u32::MAX,
    ensures
        table_rows(table_bytes(row_type_id, rows)) == rows.map_values(|r: (Seq<char>, Seq<u8>)| r.1),
{
    let n = rows.len();
    let t = total_len(rows);
    let keys = sort_pairs(key_pairs(rows));
    let b = table_bytes(row_type_id, rows);
    lemma_layout(row_type_id, rows);
    lemma_header_reads(row_type_id, rows);
    lemma_row_index_reads(row_type_id, rows);
    lemma_row_data(rows);
    let expected = rows.map_values(|r: (Seq<char>, Seq<u8>)| r.1);
    let d = row_data(rows);
    let hko = table_header(row_type_id, n, t) + key_entries(keys) + row_offsets(rows);
    assert(b =~= hko + d + Seq::<u8>::empty());
    assert forall|i: int| 0 <= i < n implies #[trigger] table_rows(b)[i] == expected[i] by {
        assert(row_offset(b, i as nat) == total_len(rows.take(i)));
        assert(row_offset(b, (i + 1) as nat) == total_len(rows.take(i + 1)));
        lemma_total_prefix(rows, (i + 1) as nat);
        lemma_window(hko, d, Seq::<u8>::empty(), total_len(rows.take(i)) as int, rows[i].1.len() as int);
    }
    assert(table_rows(b) =~= expected);
}

/// What a reader makes of what `encode` writes: a table of rows, none of them
/// empty, that fits the container passes every structural rule, reports its
/// row type and row count, and hands back each row's bytes in order.
pub proof fn lemma_encoded_table_reads_back(row_type_id: i32, rows: Seq<(Seq<char>, Seq<u8>)>)
    requires
        encodable_size(rows),
        total_len(rows) <= u32::MAX,
        forall|i: int| 0 <= i < rows.len() ==> #[trigger] rows[i].1.len() > 0,
    ensures
        check_table(table_bytes(row_type_id, rows)) == Ok::<TableView, TableError>(TableView { row_type_id, row_count: rows.len() as u32 }),
        table_rows(table_bytes(row_type_id, rows)) == rows.map_values(|r: (Seq<char>, Seq<u8>)| r.1),
{
    lemma_header_passes(row_type_id, rows);
    lemma_row_index_passes(row_type_id, rows);
    lemma_key_index_passes(row_type_id, rows);
    lemma_rows_read_back(row_type_id, rows);
}

proof fn lemma_flat_found(b: Seq<u8>, count: nat, i: nat, k: nat)
    requires
        1 <= i <= k <= count,
        row_offset(b, k) <= row_offset(b, (k - 1) as nat),
    ensures
        first_flat_offset(b, count, i) is Some,
    decreases k - i,
{
    if i < k && row_offset(b, i) > row_offset(b, (i - 1) as nat) {
        lemma_flat_found(b, count, i + 1, k);
    }
}

/// A table with an empty row is written but not read: `encode` accepts the
/// rows, and the reader refuses what it wrote, because the empty row's end
/// offset does not pass its start.
pub proof fn lemma_empty_row_is_refused(row_type_id: i32, rows: Seq<(Seq<char>, Seq<u8>)>, j: int)
    requires
        encodable_size(rows),
        total_len(rows) <= u32::MAX,
        0 <= j < rows.len(),
        rows[j].1.len() == 0,
    ensures
        check_table(table_bytes(row_type_id, rows)) is Err,
{
    let b = table_bytes(row_type_id, rows);
    lemma_header_passes(row_type_id, rows);
    lemma_row_index_reads(row_type_id, rows);
    let k = (j + 1) as nat;
    assert(rows.take(j + 1).drop_last() =~= rows.take(j));
    assert(rows.take(j + 1).last() == rows[j]);
    assert(row_offset(b, k) == total_len(rows.take(j + 1)));
    assert(row_offset(b, j as nat) == total_len(rows.take(j)));
    assert(read32(b, 12) == rows.len()) by {
        lemma_header_reads(row_type_id, rows);
    }
    if row_offset(b, 0) == 0 {
        lemma_flat_found(b, read32(b, 12), 1, k);
    }
}

} // verus!

verus! {

// ----- messages -------------------------------------------------------------

pub open spec fn region_name(r: TableRegion) -> Seq<char> {
    match r {
        TableRegion::KeyIndex => "key index"@,
        TableRegion::RowIndex => "row index"@,
        TableRegion::RowData => "row data"@,
    }
}

fn push_region(out: &mut Vec<char>, r: TableRegion)
    ensures
        final(out)@ == old(out)@ + region_name(r),
{
    match r {
        TableRegion::KeyIndex => push_str(out, "key index"),
        TableRegion::RowIndex => push_str(out, "row index"),
        TableRegion::RowData => push_str(out, "row data"),
    }
}

/// The text a table error is reported with.
pub open spec fn table_error_text(e: TableError) -> Seq<char> {
    match e {
        TableError::Unsorted { first, second, .. } => "rows are not sorted by canonical id: \""@ + first@
            + "\" then \""@ + second@ + "\""@,
        TableError::TooLarge => "table exceeds the 4 GiB the .sptbl offsets can address"@,
        TableError::TooShort { length } => "table is "@ + decimal(length as nat)
            + " bytes, shorter than the 40-byte header"@,
        TableError::BadMagic => "table does not start with the SPK1 magic"@,
        TableError::BadFormatVersion { found } => "table format_version is "@ + decimal(found as nat) + ", want 1"@,
        TableError::ReservedFlags { flags } => "table sets reserved flag bits: 0x"@
            + hex(seq![(flags / 256) as u8, (flags % 256) as u8]),
        TableError::NoKeyIndex => "table has no key index"@,
        TableError::ReservedHeaderBytes => "table reserved header bytes are not zero"@,
        TableError::KeyIndexOverflow { row_count } => "table row_count "@ + decimal(row_count as nat)
            + " overflows the key index"@,
        TableError::RowIndexOverflow { row_count } => "table row_count "@ + decimal(row_count as nat)
            + " overflows the row index"@,
        TableError::OverlapsHeader { region, offset } => "table "@ + region_name(region) + " at "@
            + decimal(offset as nat) + " overlaps the header"@,
        TableError::ExtentOverflow { region } => "table "@ + region_name(region) + " extent overflows"@,
        TableError::PastEnd { region, end, length } => "table "@ + region_name(region) + " ends at "@
            + decimal(end as nat) + ", past the "@ + decimal(length as nat) + " byte file"@,
        TableError::RegionsOverlap { first, second } => "table "@ + region_name(first) + " and "@
            + region_name(second) + " regions overlap"@,
        TableError::WrongLength { length, expected } => "table is "@ + decimal(length as nat)
            + " bytes, want exactly "@ + decimal(expected as nat),
        TableError::RowIndexStart { value } => "table row index starts at "@ + decimal(value as nat) + ", want 0"@,
        TableError::RowIndexNotIncreasing { index } => "table row index is not strictly increasing at entry "@
            + decimal(index as nat),
        TableError::RowIndexEnd { end, expected } => "table row index ends at "@ + decimal(end as nat)
            + ", want row_data_bytes "@ + decimal(expected as nat),
        TableError::KeyOrdinal { index, ordinal, row_count } => "table key index entry "@ + decimal(index as nat)
            + " points at row "@ + decimal(ordinal as nat) + ", past row_count "@ + decimal(row_count as nat),
        TableError::KeyIndexUnsorted { index } => "table key index is not sorted at entry "@ + decimal(index as nat),
        TableError::DataWithoutRows { bytes } => "table has no rows but "@ + decimal(bytes as nat)
            + " bytes of row data"@,
    }
}

impl TableError {
    /// The error as a sentence naming what the table broke.
    pub fn message(&self) -> (r: String)
        ensures
            r@ == table_error_text(*self),
    {
        let mut out: Vec<char> = Vec::new();
        match self {
            TableError::Unsorted { first, second, .. } => {
                push_str(&mut out, "rows are not sorted by canonical id: \"");
                push_str(&mut out, first.as_str());
                push_str(&mut out, "\" then \"");
                push_str(&mut out, second.as_str());
                push_str(&mut out, "\"");
            },
            TableError::TooLarge => push_str(&mut out, "table exceeds the 4 GiB the .sptbl offsets can address"),
            TableError::TooShort { length } => {
                push_str(&mut out, "table is ");
                push_decimal(&mut out, *length as u64);
                push_str(&mut out, " bytes, shorter than the 40-byte header");
            },
            TableError::BadMagic => push_str(&mut out, "table does not start with the SPK1 magic"),
            TableError::BadFormatVersion { found } => {
                push_str(&mut out, "table format_version is ");
                push_decimal(&mut out, *found as u64);
                push_str(&mut out, ", want 1");
            },
            TableError::ReservedFlags { flags } => {
                push_str(&mut out, "table sets reserved flag bits: 0x");
                let pair: Vec<u8> = vec![(*flags / 256) as u8, (*flags % 256) as u8];
                assert(pair@ =~= seq![(*flags / 256) as u8, (*flags % 256) as u8]);
                let digits = hex_vec(pair.as_slice());
                push_chars(&mut out, digits.as_slice());
            },
            TableError::NoKeyIndex => push_str(&mut out, "table has no key index"),
            TableError::ReservedHeaderBytes => push_str(&mut out, "table reserved header bytes are not zero"),
            TableError::KeyIndexOverflow { row_count } => {
                push_str(&mut out, "table row_count ");
                push_decimal(&mut out, *row_count as u64);
                push_str(&mut out, " overflows the key index");
            },
            TableError::RowIndexOverflow { row_count } => {
                push_str(&mut out, "table row_count ");
                push_decimal(&mut out, *row_count as u64);
                push_str(&mut out, " overflows the row index");
            },
            TableError::OverlapsHeader { region, offset } => {
                push_str(&mut out, "table ");
                push_region(&mut out, *region);
                push_str(&mut out, " at ");
                push_decimal(&mut out, *offset as u64);
                push_str(&mut out, " overlaps the header");
            },
            TableError::ExtentOverflow { region } => {
                push_str(&mut out, "table ");
                push_region(&mut out, *region);
                push_str(&mut out, " extent overflows");
            },
            TableError::PastEnd { region, end, length } => {
                push_str(&mut out, "table ");
                push_region(&mut out, *region);
                push_str(&mut out, " ends at ");
                push_decimal(&mut out, *end as u64);
                push_str(&mut out, ", past the ");
                push_decimal(&mut out, *length as u64);
                push_str(&mut out, " byte file");
            },
            TableError::RegionsOverlap { first, second } => {
                push_str(&mut out, "table ");
                push_region(&mut out, *first);
                push_str(&mut out, " and ");
                push_region(&mut out, *second);
                push_str(&mut out, " regions overlap");
            },
            TableError::WrongLength { length, expected } => {
                push_str(&mut out, "table is ");
                push_decimal(&mut out, *length as u64);
                push_str(&mut out, " bytes, want exactly ");
                push_decimal(&mut out, *expected as u64);
            },
            TableError::RowIndexStart { value } => {
                push_str(&mut out, "table row index starts at ");
                push_decimal(&mut out, *value as u64);
                push_str(&mut out, ", want 0");
            },
            TableError::RowIndexNotIncreasing { index } => {
                push_str(&mut out, "table row index is not strictly increasing at entry ");
                push_decimal(&mut out, *index as u64);
            },
            TableError::RowIndexEnd { end, expected } => {
                push_str(&mut out, "table row index ends at ");
                push_decimal(&mut out, *end as u64);
                push_str(&mut out, ", want row_data_bytes ");
                push_decimal(&mut out, *expected as u64);
            },
            TableError::KeyOrdinal { index, ordinal, row_count } => {
                push_str(&mut out, "table key index entry ");
                push_decimal(&mut out, *index as u64);
                push_str(&mut out, " points at row ");
                push_decimal(&mut out, *ordinal as u64);
                push_str(&mut out, ", past row_count ");
                push_decimal(&mut out, *row_count as u64);
            },
            TableError::KeyIndexUnsorted { index } => {
                push_str(&mut out, "table key index is not sorted at entry ");
                push_decimal(&mut out, *index as u64);
            },
            TableError::DataWithoutRows { bytes } => {
                push_str(&mut out, "table has no rows but ");
                push_decimal(&mut out, *bytes as u64);
                push_str(&mut out, " bytes of row data");
            },
        }
        string_of(out.as_slice())
    }
}

} // verus!
