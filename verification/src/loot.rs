//! Reading the document element of an XDB file without parsing the document.
//!
//! The item index visits every item file in the tree; learning one tag name
//! each from the raw bytes keeps that walk fast.

use vstd::prelude::*;
use vstd::utf8::{valid_utf8, decode_utf8};
use crate::encoding::from_utf8;

verus! {

/// Whether `needle` occurs in `b` at `at`.
pub open spec fn bytes_at(b: Seq<u8>, at: int, needle: Seq<u8>) -> bool {
    0 <= at && at + needle.len() <= b.len() && b.subrange(at, at + needle.len() as int) == needle
}

/// The first position at or after `from` where `needle` occurs.
pub open spec fn find_from(b: Seq<u8>, from: int, needle: Seq<u8>) -> Option<int>
    decreases b.len() - from,
{
    if from < 0 || from >= b.len() || from + needle.len() > b.len() {
        None
    } else if bytes_at(b, from, needle) {
        Some(from)
    } else {
        find_from(b, from + 1, needle)
    }
}

/// A byte that ends a tag name: ASCII whitespace, `/` or `>`.
pub open spec fn ends_name(c: u8) -> bool {
    c == 0x20 || c == 0x09 || c == 0x0A || c == 0x0C || c == 0x0D || c == 0x2F || c == 0x3E
}

/// The bytes from `i` up to the first one that ends a tag name.
pub open spec fn name_from(b: Seq<u8>, i: int) -> Seq<u8>
    decreases b.len() - i,
{
    if 0 <= i < b.len() && !ends_name(b[i]) {
        seq![b[i]] + name_from(b, i + 1)
    } else {
        Seq::<u8>::empty()
    }
}

/// The bytes of the first element's name at or after `pos`, skipping
/// processing instructions, comments and declarations.
pub open spec fn element_name_from(b: Seq<u8>, pos: int) -> Option<Seq<u8>>
    decreases b.len() - pos,
{
    match find_from(b, pos, seq![0x3Cu8]) {
        None => None,
        Some(r) => if r < pos {
            None
        } else if bytes_at(b, r, seq![0x3Cu8, 0x3Fu8]) {
            match find_from(b, r + 2, seq![0x3Fu8, 0x3Eu8]) {
                Some(e) => if e >= r && e + 2 <= b.len() { element_name_from(b, e + 2) } else { None },
                None => None,
            }
        } else if bytes_at(b, r, seq![0x3Cu8, 0x21u8, 0x2Du8, 0x2Du8]) {
            match find_from(b, r + 4, seq![0x2Du8, 0x2Du8, 0x3Eu8]) {
                Some(e) => if e >= r && e + 3 <= b.len() { element_name_from(b, e + 3) } else { None },
                None => None,
            }
        } else if bytes_at(b, r, seq![0x3Cu8, 0x21u8]) {
            match find_from(b, r + 2, seq![0x3Eu8]) {
                Some(e) => if e >= r && e + 1 <= b.len() { element_name_from(b, e + 1) } else { None },
                None => None,
            }
        } else {
            Some(name_from(b, r + 1))
        },
    }
}

/// `bytes` without a leading UTF-8 byte-order mark.
pub open spec fn without_bom(b: Seq<u8>) -> Seq<u8> {
    if bytes_at(b, 0, seq![0xEFu8, 0xBBu8, 0xBFu8]) { b.skip(3) } else { b }
}

/// The document element's name: `None` when there is none, or when its
/// bytes are empty or not UTF-8.
pub open spec fn root_element_name_of(bytes: Seq<u8>) -> Option<Seq<char>> {
    match element_name_from(without_bom(bytes), 0) {
        Some(name) => if name.len() > 0 && valid_utf8(name) { Some(decode_utf8(name)) } else { None },
        None => None,
    }
}

proof fn lemma_find_from_bounds(b: Seq<u8>, from: int, needle: Seq<u8>)
    ensures
        find_from(b, from, needle) matches Some(i) ==> from <= i && bytes_at(b, i, needle),
    decreases b.len() - from,
{
    if !(from < 0 || from >= b.len() || from + needle.len() > b.len()) && !bytes_at(b, from, needle) {
        lemma_find_from_bounds(b, from + 1, needle);
    }
}

/// The first position at or after `from` where `needle` occurs.
pub fn find(haystack: &[u8], from: usize, needle: &[u8]) -> (r: Option<usize>)
    requires
        from <= haystack@.len(),
        needle@.len() > 0,
    ensures
        match r {
            Some(i) => find_from(haystack@, from as int, needle@) == Some(i as int),
            None => find_from(haystack@, from as int, needle@) is None,
        },
{
    let n = needle.len();
    let len = haystack.len();
    let mut i = from;
    while i <= len && n <= len - i
        invariant
            from <= i,
            i <= len + 1,
            len == haystack@.len(),
            n == needle@.len(),
            n > 0,
            find_from(haystack@, i as int, needle@) == find_from(haystack@, from as int, needle@),
        decreases len + 1 - i,
    {
        let mut j: usize = 0;
        let mut same = true;
        while j < n
            invariant
                j <= n,
                i + n <= len,
                n == needle@.len(),
                len == haystack@.len(),
                same == (forall|k: int| 0 <= k < j ==> haystack@[i + k] == needle@[k]),
            decreases n - j,
        {
            if haystack[i + j] != needle[j] {
                same = false;
            }
            j = j + 1;
        }
        if same {
            assert(haystack@.subrange(i as int, i + n) =~= needle@);
            return Some(i);
        }
        assert(!bytes_at(haystack@, i as int, needle@)) by {
            if bytes_at(haystack@, i as int, needle@) {
                assert forall|k: int| 0 <= k < n implies haystack@[i + k] == needle@[k] by {
                    assert(haystack@.subrange(i as int, i + n)[k] == haystack@[i + k]);
                }
            }
        }
        i = i + 1;
    }
    None
}

proof fn lemma_name_from(b: Seq<u8>, i: int, end: int)
    requires
        0 <= i <= end <= b.len(),
        forall|k: int| i <= k < end ==> !ends_name(#[trigger] b[k]),
        end == b.len() || ends_name(b[end]),
    ensures
        name_from(b, i) == b.subrange(i, end),
    decreases end - i,
{
    if i < end {
        lemma_name_from(b, i + 1, end);
        assert(seq![b[i]] + b.subrange(i + 1, end) =~= b.subrange(i, end));
    } else {
        assert(b.subrange(i, end) =~= Seq::<u8>::empty());
    }
}

fn name_bytes(b: &[u8], start: usize) -> (out: Vec<u8>)
    requires
        start <= b@.len(),
    ensures
        out@ == name_from(b@, start as int),
{
    let mut end = start;
    while end < b.len() && !(b[end] == 0x20 || b[end] == 0x09 || b[end] == 0x0A || b[end] == 0x0C
        || b[end] == 0x0D || b[end] == 0x2F || b[end] == 0x3E)
        invariant
            start <= end <= b@.len(),
            forall|k: int| start <= k < end ==> !ends_name(#[trigger] b@[k]),
        decreases b@.len() - end,
    {
        end = end + 1;
    }
    proof { lemma_name_from(b@, start as int, end as int); }
    let mut out: Vec<u8> = Vec::new();
    let mut k = start;
    while k < end
        invariant
            start <= k <= end,
            end <= b@.len(),
            out@ == b@.subrange(start as int, k as int),
        decreases end - k,
    {
        out.push(b[k]);
        assert(b@.subrange(start as int, k + 1) =~= b@.subrange(start as int, k as int).push(b@[k as int]));
        k = k + 1;
    }
    out
}

fn starts_here(b: &[u8], at: usize, p: &[u8]) -> (r: bool)
    requires
        at <= b@.len(),
    ensures
        r == bytes_at(b@, at as int, p@),
{
    let blen = b.len();
    if p.len() > blen - at {
        return false;
    }
    let mut j: usize = 0;
    while j < p.len()
        invariant
            blen == b@.len(),
            j <= p@.len(),
            at + p@.len() <= b@.len(),
            forall|k: int| 0 <= k < j ==> b@[at + k] == p@[k],
        decreases p@.len() - j,
    {
        if b[at + j] != p[j] {
            assert(b@.subrange(at as int, at + p@.len())[j as int] != p@[j as int]);
            return false;
        }
        j = j + 1;
    }
    assert(b@.subrange(at as int, at + p@.len()) =~= p@);
    true
}

/// The name of the document element, read without building an XML tree.
pub fn root_element_name(bytes: &[u8]) -> (out: Option<String>)
    ensures
        match (out, root_element_name_of(bytes@)) {
            (Some(a), Some(b)) => a@ == b,
            (None, None) => true,
            _ => false,
        },
{
    let bom: [u8; 3] = [0xEF, 0xBB, 0xBF];
    assert(bom@ =~= seq![0xEFu8, 0xBBu8, 0xBFu8]);
    let skip: usize = if starts_here(bytes, 0, &bom) { 3 } else { 0 };
    let mut b: Vec<u8> = Vec::new();
    let mut k = skip;
    while k < bytes.len()
        invariant
            skip <= k <= bytes@.len(),
            b@ == bytes@.subrange(skip as int, k as int),
        decreases bytes@.len() - k,
    {
        b.push(bytes[k]);
        assert(bytes@.subrange(skip as int, k + 1) =~= bytes@.subrange(skip as int, k as int).push(bytes@[k as int]));
        k = k + 1;
    }
    assert(b@ =~= without_bom(bytes@));
    let open: [u8; 1] = [0x3C];
    let pi: [u8; 2] = [0x3C, 0x3F];
    let pi_end: [u8; 2] = [0x3F, 0x3E];
    let comment: [u8; 4] = [0x3C, 0x21, 0x2D, 0x2D];
    let comment_end: [u8; 3] = [0x2D, 0x2D, 0x3E];
    let decl: [u8; 2] = [0x3C, 0x21];
    let close: [u8; 1] = [0x3E];
    assert(open@ =~= seq![0x3Cu8]);
    assert(pi@ =~= seq![0x3Cu8, 0x3Fu8]);
    assert(pi_end@ =~= seq![0x3Fu8, 0x3Eu8]);
    assert(comment@ =~= seq![0x3Cu8, 0x21u8, 0x2Du8, 0x2Du8]);
    assert(comment_end@ =~= seq![0x2Du8, 0x2Du8, 0x3Eu8]);
    assert(decl@ =~= seq![0x3Cu8, 0x21u8]);
    assert(close@ =~= seq![0x3Eu8]);
    let mut pos: usize = 0;
    let blen = b.len();
    loop
        invariant
            blen == b@.len(),
            pos <= b@.len(),
            element_name_from(b@, pos as int) == element_name_from(b@, 0),
            b@ == without_bom(bytes@),
            open@ == seq![0x3Cu8],
            pi@ == seq![0x3Cu8, 0x3Fu8],
            pi_end@ == seq![0x3Fu8, 0x3Eu8],
            comment@ == seq![0x3Cu8, 0x21u8, 0x2Du8, 0x2Du8],
            comment_end@ == seq![0x2Du8, 0x2Du8, 0x3Eu8],
            decl@ == seq![0x3Cu8, 0x21u8],
            close@ == seq![0x3Eu8],
        decreases b@.len() - pos,
    {
        let r = match find(b.as_slice(), pos, &open) {
            Some(r) => r,
            None => return None,
        };
        proof { lemma_find_from_bounds(b@, pos as int, seq![0x3Cu8]); }
        if starts_here(b.as_slice(), r, &pi) {
            let e = match find(b.as_slice(), r + 2, &pi_end) {
                Some(e) => e,
                None => return None,
            };
            proof { lemma_find_from_bounds(b@, r + 2, seq![0x3Fu8, 0x3Eu8]); }
            pos = e + 2;
        } else if starts_here(b.as_slice(), r, &comment) {
            assert(r + 4 <= b@.len());
            let e = match find(b.as_slice(), r + 4, &comment_end) {
                Some(e) => e,
                None => return None,
            };
            proof { lemma_find_from_bounds(b@, r + 4, seq![0x2Du8, 0x2Du8, 0x3Eu8]); }
            pos = e + 3;
        } else if starts_here(b.as_slice(), r, &decl) {
            let e = match find(b.as_slice(), r + 2, &close) {
                Some(e) => e,
                None => return None,
            };
            proof { lemma_find_from_bounds(b@, r + 2, seq![0x3Eu8]); }
            assert(e + 1 <= b@.len());
            pos = e + 1;
        } else {
            assert(r + 1 <= b@.len());
            let name = name_bytes(b.as_slice(), r + 1);
            if name.len() == 0 {
                return None;
            }
            return from_utf8(name.as_slice());
        }
    }
}

} // verus!
