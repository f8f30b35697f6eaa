//! Stable English ids minted from source paths.
//!
//! A source path such as `World/Quests/InstLeague1/Quest_1_10/Quest_1_10.xdb`
//! becomes `quest.inst-league1.quest-1-10`. Each segment is slugged: ASCII
//! letters and digits survive, lowercased, words split at separators and at
//! camel-case boundaries are joined by `-`. Segments that would make an id
//! too long are shortened and suffixed with a digest so that ids stay unique.

use vstd::prelude::*;
use crate::text::{
    is_alnum, is_upper, is_lower, is_digit, lower_char, lower, all_ascii, lemma_ascii_concat,
    lemma_ascii_join, char_is_alnum, char_is_upper, char_is_lower, char_lower, chars_of,
    string_of, eq_str, has_suffix, ends_with_str, slice_range, contains, is_last_occurrence,
    rfind, find, occurs_at, split, split_vec, replace_char, replace_char_vec, views_of, keep_nonempty,
    keep_nonempty_vec, join, join_vec, copy_chars, push_str, push_chars, lower_vec,
    before_first, before_first_vec, lemma_split_nonempty,
};
use crate::digest::{digest_hex, digest_hex_vec};

verus! {

// ----- slugs ----------------------------------------------------------------

/// An upper-case letter that starts a new word: after a lower-case letter, or
/// the last capital of an acronym that a lower-case letter follows.
pub open spec fn camel_boundary(s: Seq<char>, i: int) -> bool {
    &&& is_upper(s[i])
    &&& i > 0
    &&& (is_lower(s[i - 1]) || (is_upper(s[i - 1]) && i + 1 < s.len() && is_lower(s[i + 1])))
}

/// The slug written after reading the first `n` characters of `s`, and whether
/// a separator is pending.
pub open spec fn slug_scan(s: Seq<char>, n: nat) -> (Seq<char>, bool)
    decreases n,
{
    if n == 0 || n > s.len() {
        (Seq::<char>::empty(), false)
    } else {
        let prev = slug_scan(s, (n - 1) as nat);
        let out = prev.0;
        let c = s[n - 1];
        if !is_alnum(c) {
            (out, out.len() > 0)
        } else {
            let dash = (prev.1 || camel_boundary(s, n - 1)) && !(out.len() > 0 && out.last() == '-');
            let with_dash = if dash { out.push('-') } else { out };
            (with_dash.push(lower_char(c)), false)
        }
    }
}

/// The slug of `s`: its ASCII letters and digits, lowercased, with one `-`
/// between words.
pub open spec fn slug_of(s: Seq<char>) -> Seq<char> {
    slug_scan(s, s.len()).0
}

/// A character a slug may hold.
pub open spec fn is_slug_char(c: char) -> bool {
    is_lower(c) || is_digit(c) || c == '-'
}

pub open spec fn slug_shaped(out: Seq<char>) -> bool {
    &&& forall|i: int| 0 <= i < out.len() ==> is_slug_char(#[trigger] out[i])
    &&& out.len() > 0 ==> out[0] != '-' && out.last() != '-'
}

proof fn lemma_slug_scan(s: Seq<char>, n: nat)
    requires
        n <= s.len(),
    ensures
        slug_shaped(slug_scan(s, n).0),
        slug_scan(s, n).1 ==> slug_scan(s, n).0.len() > 0,
        n > 0 && is_alnum(s[n - 1]) ==> slug_scan(s, n).0.len() > 0,
    decreases n,
{
    if n > 0 {
        lemma_slug_scan(s, (n - 1) as nat);
        let prev = slug_scan(s, (n - 1) as nat);
        let out = prev.0;
        let c = s[n - 1];
        if is_alnum(c) {
            if camel_boundary(s, n - 1) {
                assert(is_alnum(s[n - 2]));
            }
            let dash = (prev.1 || camel_boundary(s, n - 1)) && !(out.len() > 0 && out.last() == '-');
            let with_dash = if dash { out.push('-') } else { out };
            let next = with_dash.push(lower_char(c));
            assert forall|i: int| 0 <= i < next.len() implies is_slug_char(#[trigger] next[i]) by {
                if i < out.len() {
                    assert(next[i] == out[i]);
                }
            }
            if out.len() > 0 {
                assert(next[0] == out[0]);
            }
        }
    }
}

/// A slug holds only lower-case ASCII letters, digits and inner dashes.
pub proof fn lemma_slug_shape(s: Seq<char>)
    ensures
        slug_shaped(slug_of(s)),
        all_ascii(slug_of(s)),
{
    lemma_slug_scan(s, s.len());
    let out = slug_of(s);
    assert forall|i: int| 0 <= i < out.len() implies (#[trigger] out[i]) <= '\u{7f}' by {
        assert(is_slug_char(out[i]));
    }
}

fn camel_boundary_at(s: &[char], i: usize) -> (r: bool)
    requires
        i < s@.len(),
    ensures
        r == camel_boundary(s@, i as int),
{
    if !char_is_upper(s[i]) || i == 0 {
        return false;
    }
    if char_is_lower(s[i - 1]) {
        return true;
    }
    char_is_upper(s[i - 1]) && i + 1 < s.len() && char_is_lower(s[i + 1])
}

/// The slug of a character sequence.
pub fn slug_vec(s: &[char]) -> (out: Vec<char>)
    ensures
        out@ == slug_of(s@),
{
    let mut out: Vec<char> = Vec::new();
    let mut separator = false;
    let mut i: usize = 0;
    while i < s.len()
        invariant
            i <= s@.len(),
            (out@, separator) == slug_scan(s@, i as nat),
        decreases s@.len() - i,
    {
        let c = s[i];
        if !char_is_alnum(c) {
            separator = out.len() > 0;
        } else {
            let boundary = camel_boundary_at(s, i);
            let ends_in_dash = out.len() > 0 && out[out.len() - 1] == '-';
            if (separator || boundary) && !ends_in_dash {
                out.push('-');
            }
            out.push(char_lower(c));
            separator = false;
        }
        i = i + 1;
    }
    out
}

/// The slug of `value`: `"GibberlingFur"` becomes `"gibberling-fur"`.
pub fn slug(value: &str) -> (out: String)
    ensures
        out@ == slug_of(value@),
{
    let chars = chars_of(value);
    let out = slug_vec(chars.as_slice());
    string_of(out.as_slice())
}

// ----- zones ----------------------------------------------------------------

/// The public slug of a source zone name: the source names of Lightwood all
/// become `lightwood`, everything else is slugged.
pub open spec fn canonical_zone_of(value: Seq<char>) -> Seq<char> {
    let l = lower(value);
    if l == "zoneleague1"@ || l == "zone-league1"@ || l == "lightwood"@ {
        "lightwood"@
    } else {
        slug_of(value)
    }
}

pub fn canonical_zone_vec(value: &[char]) -> (out: Vec<char>)
    ensures
        out@ == canonical_zone_of(value@),
        all_ascii(out@),
{
    proof { lemma_slug_shape(value@); reveal_strlit("lightwood"); }
    let l = lower_vec(value);
    if eq_str(l.as_slice(), "zoneleague1") || eq_str(l.as_slice(), "zone-league1")
        || eq_str(l.as_slice(), "lightwood") {
        chars_of("lightwood")
    } else {
        slug_vec(value)
    }
}

/// Translates a source-era zone name into its public id segment.
pub fn canonical_zone_slug(value: &str) -> (out: String)
    ensures
        out@ == canonical_zone_of(value@),
{
    let chars = chars_of(value);
    let out = canonical_zone_vec(chars.as_slice());
    string_of(out.as_slice())
}

// ----- bounded segments -----------------------------------------------------

/// `s` without its trailing `-` and `.` characters.
pub open spec fn trim_end_dash_dot(s: Seq<char>) -> Seq<char>
    decreases s.len(),
{
    if s.len() > 0 && (s.last() == '-' || s.last() == '.') {
        trim_end_dash_dot(s.drop_last())
    } else {
        s
    }
}

/// The bytes of an ASCII character sequence.
pub open spec fn ascii_bytes(s: Seq<char>) -> Seq<u8> {
    s.map_values(|c: char| c as u8)
}

/// `value` when it fits in `limit` characters; otherwise its first
/// `limit - 13` characters without trailing separators, a `-`, and the first
/// twelve hex digits of the BLAKE3 digest of the whole value.
pub open spec fn bounded_of(value: Seq<char>, limit: nat) -> Seq<char> {
    if value.len() <= limit {
        value
    } else {
        trim_end_dash_dot(value.subrange(0, limit - 13)) + "-"@
            + digest_hex(ascii_bytes(value)).subrange(0, 12)
    }
}

fn ascii_bytes_vec(s: &[char]) -> (out: Vec<u8>)
    requires
        all_ascii(s@),
    ensures
        out@ == ascii_bytes(s@),
{
    let mut out: Vec<u8> = Vec::new();
    let mut i: usize = 0;
    while i < s.len()
        invariant
            i <= s@.len(),
            all_ascii(s@),
            out@ == ascii_bytes(s@.subrange(0, i as int)),
        decreases s@.len() - i,
    {
        let c = s[i];
        assert(c <= '\u{7f}');
        out.push(c as u8);
        assert(ascii_bytes(s@.subrange(0, i + 1)) =~= ascii_bytes(s@.subrange(0, i as int)).push(c as u8));
        i = i + 1;
    }
    assert(s@.subrange(0, s@.len() as int) =~= s@);
    out
}

fn trim_end_dash_dot_vec(s: &[char]) -> (out: Vec<char>)
    ensures
        out@ == trim_end_dash_dot(s@),
{
    let mut end = s.len();
    assert(s@.subrange(0, end as int) =~= s@);
    while end > 0 && (s[end - 1] == '-' || s[end - 1] == '.')
        invariant
            end <= s@.len(),
            trim_end_dash_dot(s@.subrange(0, end as int)) == trim_end_dash_dot(s@),
        decreases end,
    {
        assert(s@.subrange(0, end as int).drop_last() =~= s@.subrange(0, end - 1));
        end = end - 1;
    }
    slice_range(s, 0, end)
}

/// Trimming trailing separators keeps a prefix that ends in neither.
proof fn lemma_trim_end_prefix(s: Seq<char>)
    ensures
        trim_end_dash_dot(s).len() <= s.len(),
        s.subrange(0, trim_end_dash_dot(s).len() as int) == trim_end_dash_dot(s),
    decreases s.len(),
{
    if s.len() > 0 && (s.last() == '-' || s.last() == '.') {
        lemma_trim_end_prefix(s.drop_last());
        let t = trim_end_dash_dot(s.drop_last());
        assert(s.subrange(0, t.len() as int) =~= s.drop_last().subrange(0, t.len() as int));
    } else {
        assert(s.subrange(0, s.len() as int) =~= s);
    }
}

/// A text's UTF-8 encoding is at least as long as the text.
pub proof fn lemma_utf8_len(s: Seq<char>)
    ensures
        vstd::utf8::encode_utf8(s).len() >= s.len(),
    decreases s.len(),
{
    if s.len() > 0 {
        lemma_utf8_len(s.drop_first());
    }
}

/// Shortens an over-long id segment, keeping it unique by a digest; a
/// segment within `limit` UTF-8 bytes comes back unchanged.
pub fn bounded_slug_vec(value: &[char], limit: usize) -> (out: Vec<char>)
    requires
        value@.len() > limit ==> all_ascii(value@) && limit >= 13,
        !all_ascii(value@) ==> vstd::utf8::encode_utf8(value@).len() <= limit,
    ensures
        out@ == bounded_of(value@, limit as nat),
        out@.len() <= limit,
        value@.len() > limit ==> out@.len() >= 13 && out@[out@.len() - 13] == '-'
            && out@.subrange(0, out@.len() - 13) == value@.subrange(0, out@.len() - 13),
{
    proof { lemma_utf8_len(value@); }
    if value.len() <= limit {
        return copy_chars(value);
    }
    let bytes = ascii_bytes_vec(value);
    let hash = digest_hex_vec(bytes.as_slice());
    let head = slice_range(value, 0, limit - 13);
    let mut out = trim_end_dash_dot_vec(head.as_slice());
    out.push('-');
    let short = slice_range(hash.as_slice(), 0, 12);
    push_chars(&mut out, short.as_slice());
    proof {
        reveal_strlit("-");
        lemma_trim_end_prefix(head@);
        let t = trim_end_dash_dot(head@);
        assert(out@.len() == t.len() + 13);
        assert(out@.subrange(0, t.len() as int) =~= t);
        assert(head@.subrange(0, t.len() as int) =~= value@.subrange(0, t.len() as int));
    }
    assert(out@ =~= bounded_of(value@, limit as nat));
    out
}

/// Shortens an over-long ASCII id segment; a segment within `limit` UTF-8
/// bytes comes back unchanged, ASCII or not.
pub fn bounded_slug(value: &str, limit: usize) -> (out: String)
    requires
        value@.len() > limit ==> all_ascii(value@) && limit >= 13,
        !all_ascii(value@) ==> vstd::utf8::encode_utf8(value@).len() <= limit,
    ensures
        out@ == bounded_of(value@, limit as nat),
        out@.len() <= limit,
        value@.len() > limit ==> out@.len() >= 13 && out@[out@.len() - 13] == '-'
            && out@.subrange(0, out@.len() - 13) == value@.subrange(0, out@.len() - 13),
{
    let chars = chars_of(value);
    let out = bounded_slug_vec(chars.as_slice(), limit);
    string_of(out.as_slice())
}

// ----- path segments --------------------------------------------------------

/// `v` without a trailing `.xdb`.
pub open spec fn strip_dot_xdb(v: Seq<char>) -> Seq<char> {
    if has_suffix(v, ".xdb"@) {
        v.subrange(0, v.len() - 4)
    } else {
        v
    }
}

/// The last position of `.(` in `w`.
pub open spec fn last_marker(w: Seq<char>) -> int {
    choose|i: int| is_last_occurrence(w, ".("@, i)
}

/// `v` without a trailing `.xdb` and without a resource marker such as
/// `.(MobKind)` that starts at the last `.(`.
pub open spec fn strip_xdb_suffix_of(v: Seq<char>) -> Seq<char> {
    let w = strip_dot_xdb(v);
    if contains(w, ".("@) {
        w.subrange(0, last_marker(w))
    } else {
        w
    }
}

proof fn lemma_last_occurrence_unique(s: Seq<char>, p: Seq<char>, i: int, j: int)
    requires
        is_last_occurrence(s, p, i),
        is_last_occurrence(s, p, j),
    ensures
        i == j,
{
    if i < j {
        assert(!occurs_at(s, p, j));
    } else if j < i {
        assert(!occurs_at(s, p, i));
    }
}

fn strip_dot_xdb_vec(v: &[char]) -> (out: Vec<char>)
    ensures
        out@ == strip_dot_xdb(v@),
{
    if ends_with_str(v, ".xdb") {
        proof { reveal_strlit(".xdb"); }
        slice_range(v, 0, v.len() - 4)
    } else {
        copy_chars(v)
    }
}

pub fn strip_xdb_suffix_vec(v: &[char]) -> (out: Vec<char>)
    ensures
        out@ == strip_xdb_suffix_of(v@),
{
    let w = strip_dot_xdb_vec(v);
    let marker = chars_of(".(");
    match rfind(w.as_slice(), marker.as_slice()) {
        Some(i) => {
            proof {
                assert(occurs_at(w@, ".("@, i as int));
                let j = last_marker(w@);
                lemma_last_occurrence_unique(w@, ".("@, i as int, j);
            }
            slice_range(w.as_slice(), 0, i)
        },
        None => w,
    }
}

/// Strips `.xdb` and a trailing resource marker from a file name.
pub fn strip_xdb_suffix(value: &str) -> (out: String)
    ensures
        out@ == strip_xdb_suffix_of(value@),
{
    let chars = chars_of(value);
    let out = strip_xdb_suffix_vec(chars.as_slice());
    string_of(out.as_slice())
}

/// Each part slugged after its suffix is stripped.
pub open spec fn slugged_parts(parts: Seq<Seq<char>>) -> Seq<Seq<char>>
    decreases parts.len(),
{
    if parts.len() == 0 {
        Seq::<Seq<char>>::empty()
    } else {
        slugged_parts(parts.drop_last()).push(slug_of(strip_xdb_suffix_of(parts.last())))
    }
}

/// The non-empty slugs of a path tail.
pub open spec fn segments_of(parts: Seq<Seq<char>>) -> Seq<Seq<char>> {
    keep_nonempty(slugged_parts(parts))
}

/// Each piece slugged.
pub open spec fn slug_each(pieces: Seq<Seq<char>>) -> Seq<Seq<char>>
    decreases pieces.len(),
{
    if pieces.len() == 0 {
        Seq::<Seq<char>>::empty()
    } else {
        slug_each(pieces.drop_last()).push(slug_of(pieces.last()))
    }
}

/// Item path tails split every part at `_` as well, after dropping `.xdb`.
pub open spec fn item_pieces(parts: Seq<Seq<char>>) -> Seq<Seq<char>>
    decreases parts.len(),
{
    if parts.len() == 0 {
        Seq::<Seq<char>>::empty()
    } else {
        item_pieces(parts.drop_last()) + keep_nonempty(slug_each(split(strip_dot_xdb(parts.last()), '_')))
    }
}

pub open spec fn id_limit() -> nat {
    120
}

/// A path tail as dotted id segments.
pub open spec fn slug_path_of(parts: Seq<Seq<char>>) -> Seq<char> {
    bounded_of(join(segments_of(parts), "."@), id_limit())
}

/// A path tail as one hyphenated segment, for ids the schemas cap at two dots.
pub open spec fn flat_slug_of(parts: Seq<Seq<char>>) -> Seq<char> {
    bounded_of(join(segments_of(parts), "-"@), id_limit())
}

/// An item path tail as dotted segments, split at underscores too.
pub open spec fn item_slug_path_of(parts: Seq<Seq<char>>) -> Seq<char> {
    bounded_of(join(item_pieces(parts), "."@), id_limit())
}

/// A quest path tail: a file named after its directory does not repeat it.
pub open spec fn quest_slug_path_of(parts: Seq<Seq<char>>) -> Seq<char> {
    let s = segments_of(parts);
    let t = if s.len() >= 2 && s.last() == s[s.len() - 2] { s.drop_last() } else { s };
    bounded_of(join(t, "."@), id_limit())
}

pub open spec fn parts_ascii(parts: Seq<Seq<char>>) -> bool {
    forall|k: int| 0 <= k < parts.len() ==> all_ascii(#[trigger] parts[k])
}

proof fn lemma_keep_nonempty_ascii(parts: Seq<Seq<char>>)
    requires
        parts_ascii(parts),
    ensures
        parts_ascii(keep_nonempty(parts)),
    decreases parts.len(),
{
    if parts.len() > 0 {
        let init = parts.drop_last();
        assert(parts_ascii(init)) by {
            assert forall|k: int| 0 <= k < init.len() implies all_ascii(#[trigger] init[k]) by {
                assert(init[k] == parts[k]);
            }
        }
        lemma_keep_nonempty_ascii(init);
        assert(all_ascii(parts[parts.len() - 1]));
        let r = keep_nonempty(init);
        if parts.last().len() > 0 {
            let q = r.push(parts.last());
            assert forall|k: int| 0 <= k < q.len() implies all_ascii(#[trigger] q[k]) by {
                if k < r.len() {
                    assert(q[k] == r[k]);
                }
            }
        }
    }
}

fn slug_parts_vec(parts: &Vec<Vec<char>>, from: usize) -> (out: Vec<Vec<char>>)
    requires
        from <= parts@.len(),
    ensures
        views_of(out@) == segments_of(views_of(parts@).skip(from as int)),
        parts_ascii(views_of(out@)),
{
    let ghost all = views_of(parts@);
    let mut slugged: Vec<Vec<char>> = Vec::new();
    let mut i: usize = from;
    while i < parts.len()
        invariant
            from <= i <= parts@.len(),
            all == views_of(parts@),
            views_of(slugged@) == slugged_parts(all.subrange(from as int, i as int)),
            parts_ascii(views_of(slugged@)),
        decreases parts@.len() - i,
    {
        assert(all.subrange(from as int, i + 1).drop_last() =~= all.subrange(from as int, i as int));
        assert(all.subrange(from as int, i + 1).last() == parts@[i as int]@);
        let stripped = strip_xdb_suffix_vec(parts[i].as_slice());
        let piece = slug_vec(stripped.as_slice());
        proof { lemma_slug_shape(stripped@); }
        let ghost before = views_of(slugged@);
        slugged.push(piece);
        assert(views_of(slugged@) =~= before.push(piece@));
        assert(parts_ascii(views_of(slugged@))) by {
            let q = views_of(slugged@);
            assert forall|k: int| 0 <= k < q.len() implies all_ascii(#[trigger] q[k]) by {
                if k < before.len() {
                    assert(q[k] == before[k]);
                }
            }
        }
        i = i + 1;
    }
    assert(all.subrange(from as int, parts@.len() as int) =~= all.skip(from as int));
    proof { lemma_keep_nonempty_ascii(views_of(slugged@)); }
    keep_nonempty_vec(&slugged)
}

fn joined_bounded(segments: &Vec<Vec<char>>, sep: &str) -> (out: Vec<char>)
    requires
        parts_ascii(views_of(segments@)),
        all_ascii(sep@),
    ensures
        out@ == bounded_of(join(views_of(segments@), sep@), id_limit()),
{
    let sep_chars = chars_of(sep);
    let joined = join_vec(segments, sep_chars.as_slice());
    proof { lemma_ascii_join(views_of(segments@), sep@); }
    bounded_slug_vec(joined.as_slice(), 120)
}

/// A path tail from `from` on as dotted id segments.
pub fn slug_path(parts: &Vec<Vec<char>>, from: usize) -> (out: Vec<char>)
    requires
        from <= parts@.len(),
    ensures
        out@ == slug_path_of(views_of(parts@).skip(from as int)),
{
    let segments = slug_parts_vec(parts, from);
    proof { reveal_strlit("."); }
    joined_bounded(&segments, ".")
}

/// A path tail from `from` on as one hyphenated segment.
pub fn flat_slug(parts: &Vec<Vec<char>>, from: usize) -> (out: Vec<char>)
    requires
        from <= parts@.len(),
    ensures
        out@ == flat_slug_of(views_of(parts@).skip(from as int)),
{
    let segments = slug_parts_vec(parts, from);
    proof { reveal_strlit("-"); }
    joined_bounded(&segments, "-")
}

/// A quest path tail from `from` on.
pub fn quest_slug_path(parts: &Vec<Vec<char>>, from: usize) -> (out: Vec<char>)
    requires
        from <= parts@.len(),
    ensures
        out@ == quest_slug_path_of(views_of(parts@).skip(from as int)),
{
    let mut segments = slug_parts_vec(parts, from);
    let n = segments.len();
    if n >= 2 && crate::text::seq_eq(segments[n - 1].as_slice(), segments[n - 2].as_slice()) {
        let ghost before = views_of(segments@);
        segments.pop();
        assert(views_of(segments@) =~= before.drop_last());
        assert(parts_ascii(views_of(segments@))) by {
            let q = views_of(segments@);
            assert forall|k: int| 0 <= k < q.len() implies all_ascii(#[trigger] q[k]) by {
                assert(q[k] == before[k]);
            }
        }
    }
    proof { reveal_strlit("."); }
    joined_bounded(&segments, ".")
}

fn slug_each_vec(pieces: &Vec<Vec<char>>) -> (out: Vec<Vec<char>>)
    ensures
        views_of(out@) == slug_each(views_of(pieces@)),
        parts_ascii(views_of(out@)),
{
    let ghost all = views_of(pieces@);
    let mut out: Vec<Vec<char>> = Vec::new();
    let mut i: usize = 0;
    while i < pieces.len()
        invariant
            i <= pieces@.len(),
            all == views_of(pieces@),
            views_of(out@) == slug_each(all.subrange(0, i as int)),
            parts_ascii(views_of(out@)),
        decreases pieces@.len() - i,
    {
        assert(all.subrange(0, i + 1).drop_last() =~= all.subrange(0, i as int));
        assert(all.subrange(0, i + 1).last() == pieces@[i as int]@);
        let piece = slug_vec(pieces[i].as_slice());
        proof { lemma_slug_shape(pieces@[i as int]@); }
        let ghost before = views_of(out@);
        out.push(piece);
        assert(views_of(out@) =~= before.push(piece@));
        assert(parts_ascii(views_of(out@))) by {
            let q = views_of(out@);
            assert forall|k: int| 0 <= k < q.len() implies all_ascii(#[trigger] q[k]) by {
                if k < before.len() {
                    assert(q[k] == before[k]);
                }
            }
        }
        i = i + 1;
    }
    assert(all.subrange(0, pieces@.len() as int) =~= all);
    out
}

/// An item path tail from `from` on, split at underscores too.
pub fn item_slug_path(parts: &Vec<Vec<char>>, from: usize) -> (out: Vec<char>)
    requires
        from <= parts@.len(),
    ensures
        out@ == item_slug_path_of(views_of(parts@).skip(from as int)),
{
    let ghost all = views_of(parts@);
    let mut pieces: Vec<Vec<char>> = Vec::new();
    let mut i: usize = from;
    while i < parts.len()
        invariant
            from <= i <= parts@.len(),
            all == views_of(parts@),
            views_of(pieces@) == item_pieces(all.subrange(from as int, i as int)),
            parts_ascii(views_of(pieces@)),
        decreases parts@.len() - i,
    {
        assert(all.subrange(from as int, i + 1).drop_last() =~= all.subrange(from as int, i as int));
        assert(all.subrange(from as int, i + 1).last() == parts@[i as int]@);
        let stem = strip_dot_xdb_vec(parts[i].as_slice());
        let words = split_vec(stem.as_slice(), '_');
        assert(views_of(words@) =~= split(stem@, '_'));
        let slugged = slug_each_vec(&words);
        let kept = keep_nonempty_vec(&slugged);
        proof { lemma_keep_nonempty_ascii(views_of(slugged@)); }
        let ghost before = views_of(pieces@);
        let mut j: usize = 0;
        while j < kept.len()
            invariant
                j <= kept@.len(),
                parts_ascii(views_of(kept@)),
                before == item_pieces(all.subrange(from as int, i as int)),
                views_of(pieces@) == before + views_of(kept@).subrange(0, j as int),
                parts_ascii(views_of(pieces@)),
            decreases kept@.len() - j,
        {
            let ghost prior = views_of(pieces@);
            let piece = copy_chars(kept[j].as_slice());
            pieces.push(piece);
            assert(views_of(pieces@) =~= prior.push(piece@));
            assert(views_of(pieces@) =~= before + views_of(kept@).subrange(0, j + 1));
            assert(parts_ascii(views_of(pieces@))) by {
                let q = views_of(pieces@);
                assert forall|k: int| 0 <= k < q.len() implies all_ascii(#[trigger] q[k]) by {
                    if k < prior.len() {
                        assert(q[k] == prior[k]);
                    } else {
                        assert(q[k] == views_of(kept@)[j as int]);
                    }
                }
            }
            j = j + 1;
        }
        assert(views_of(kept@).subrange(0, kept@.len() as int) =~= views_of(kept@));
        i = i + 1;
    }
    assert(all.subrange(from as int, parts@.len() as int) =~= all.skip(from as int));
    proof { reveal_strlit("."); }
    joined_bounded(&pieces, ".")
}

// ----- canonical ids --------------------------------------------------------

/// The non-empty `/`-separated parts of a path, `\` counting as `/`.
pub open spec fn path_parts(path: Seq<char>) -> Seq<Seq<char>> {
    keep_nonempty(split(replace_char(path, '\\', '/'), '/'))
}

/// The canonical id of a source path, already split into parts; `None` where
/// the path names nothing that gets a public id.
pub open spec fn id_of_parts(parts: Seq<Seq<char>>) -> Option<Seq<char>> {
    let n = parts.len();
    if n == 0 {
        None
    } else if parts[0] == "Items"@ && n >= 3 {
        Some("item."@ + slug_of(parts[1]) + "."@ + item_slug_path_of(parts.skip(2)))
    } else if parts[0] == "World"@ && n >= 4 && parts[1] == "Quests"@ {
        Some("quest."@ + canonical_zone_of(parts[2]) + "."@ + quest_slug_path_of(parts.skip(3)))
    } else if (parts[0] == "Characters"@ || parts[0] == "Creatures"@) && n >= 5
        && parts[2] == "Instances"@ {
        Some("mob."@ + canonical_zone_of(parts[3]) + "."@ + slug_of(parts[1]) + "."@
            + slug_path_of(parts.skip(4)))
    } else if parts[0] == "Maps"@ && n >= 5 && parts[2] == "SpawnTables"@ {
        Some("spawn."@ + canonical_zone_of(parts[3]) + ".table."@ + slug_path_of(parts.skip(4)))
    } else if parts[0] == "World"@ && n >= 4 && parts[1] == "LootTables"@ {
        Some("loot."@ + slug_path_of(parts.skip(2)))
    } else if parts[0] == "World"@ && n >= 3 && parts[1] == "Factions"@ {
        Some("faction."@ + flat_slug_of(parts.skip(2)))
    } else if parts[0] == "Mechanics"@ && n >= 3 && parts[1] == "Faction"@ {
        Some("faction."@ + flat_slug_of(parts.skip(2)))
    } else if parts[0] == "Mechanics"@ && n == 3 && parts[1] == "MobClasses"@ {
        Some("mobclass."@ + flat_slug_of(parts.skip(2)))
    } else if parts[0] == "Mechanics"@ && n == 3 && parts[1] == "MobQualities"@ {
        Some("mobquality."@ + flat_slug_of(parts.skip(2)))
    } else if parts[0] == "Mechanics"@ && n == 3 && parts[1] == "MobKindTemplates"@ {
        Some("mobkind.mob-kind-templates."@ + flat_slug_of(parts.skip(2)))
    } else if parts[0] == "Mechanics"@ && n >= 3
        && (parts[1] == "Creatures"@ || parts[1] == "Characters"@)
        && contains(parts[n - 1], ".(MobKind)"@) {
        Some("mobkind."@ + slug_path_of(parts.skip(1)))
    } else {
        None
    }
}

/// The canonical id of a source path.
pub open spec fn canonical_id_of(path: Seq<char>) -> Option<Seq<char>> {
    id_of_parts(path_parts(path))
}

/// The mob kind id of a path already known to hold a `MobKind` document: any
/// path under `Mechanics/Creatures` or `Mechanics/Characters` qualifies,
/// marker or not; other paths map as `canonical_id_of` maps them.
pub open spec fn mobkind_id_of(path: Seq<char>) -> Option<Seq<char>> {
    let parts = path_parts(path);
    if parts.len() >= 3 && parts[0] == "Mechanics"@
        && (parts[1] == "Creatures"@ || parts[1] == "Characters"@) {
        Some("mobkind."@ + slug_path_of(parts.skip(1)))
    } else {
        id_of_parts(parts)
    }
}

/// `s` without its leading `/` characters.
pub open spec fn trim_lead_slash(s: Seq<char>) -> Seq<char>
    decreases s.len(),
{
    if s.len() > 0 && s[0] == '/' {
        trim_lead_slash(s.drop_first())
    } else {
        s
    }
}

/// The canonical id of an href: the part before `#`, leading `/` dropped.
pub open spec fn href_id_of(href: Seq<char>) -> Option<Seq<char>> {
    canonical_id_of(trim_lead_slash(before_first(href, '#')))
}

pub open spec fn opt_chars(o: Option<Vec<char>>) -> Option<Seq<char>> {
    match o {
        Some(v) => Some(v@),
        None => None,
    }
}

pub open spec fn opt_text(o: Option<String>) -> Option<Seq<char>> {
    match o {
        Some(v) => Some(v@),
        None => None,
    }
}

/// Splits a path into its non-empty parts.
pub fn path_parts_vec(path: &[char]) -> (out: Vec<Vec<char>>)
    ensures
        views_of(out@) == path_parts(path@),
{
    let unified = replace_char_vec(path, '\\', '/');
    let pieces = split_vec(unified.as_slice(), '/');
    assert(views_of(pieces@) =~= split(unified@, '/'));
    keep_nonempty_vec(&pieces)
}

fn with_prefix(prefix: &str, tail: &[char]) -> (out: Vec<char>)
    ensures
        out@ == prefix@ + tail@,
{
    let mut out: Vec<char> = Vec::new();
    push_str(&mut out, prefix);
    push_chars(&mut out, tail);
    assert(out@ =~= prefix@ + tail@);
    out
}

fn with_prefix2(prefix: &str, first: &[char], mid: &str, second: &[char]) -> (out: Vec<char>)
    ensures
        out@ == prefix@ + first@ + mid@ + second@,
{
    let mut out: Vec<char> = Vec::new();
    push_str(&mut out, prefix);
    push_chars(&mut out, first);
    push_str(&mut out, mid);
    push_chars(&mut out, second);
    assert(out@ =~= prefix@ + first@ + mid@ + second@);
    out
}

fn part_is(parts: &Vec<Vec<char>>, i: usize, name: &str) -> (r: bool)
    requires
        i < parts@.len(),
    ensures
        r == (views_of(parts@)[i as int] == name@),
{
    eq_str(parts[i].as_slice(), name)
}

/// The canonical id of a path already split into parts.
pub fn id_of_parts_vec(parts: &Vec<Vec<char>>) -> (out: Option<Vec<char>>)
    ensures
        opt_chars(out) == id_of_parts(views_of(parts@)),
{
    let ghost v = views_of(parts@);
    let n = parts.len();
    if n == 0 {
        return None;
    }
    if part_is(parts, 0, "Items") && n >= 3 {
        let category = slug_vec(parts[1].as_slice());
        let tail = item_slug_path(parts, 2);
        return Some(with_prefix2("item.", category.as_slice(), ".", tail.as_slice()));
    }
    if part_is(parts, 0, "World") && n >= 4 && part_is(parts, 1, "Quests") {
        let zone = canonical_zone_vec(parts[2].as_slice());
        let tail = quest_slug_path(parts, 3);
        return Some(with_prefix2("quest.", zone.as_slice(), ".", tail.as_slice()));
    }
    if (part_is(parts, 0, "Characters") || part_is(parts, 0, "Creatures")) && n >= 5
        && part_is(parts, 2, "Instances") {
        let family = slug_vec(parts[1].as_slice());
        let zone = canonical_zone_vec(parts[3].as_slice());
        let tail = slug_path(parts, 4);
        let mut out = with_prefix2("mob.", zone.as_slice(), ".", family.as_slice());
        push_str(&mut out, ".");
        push_chars(&mut out, tail.as_slice());
        assert(out@ =~= "mob."@ + zone@ + "."@ + family@ + "."@ + tail@);
        return Some(out);
    }
    if part_is(parts, 0, "Maps") && n >= 5 && part_is(parts, 2, "SpawnTables") {
        let zone = canonical_zone_vec(parts[3].as_slice());
        let tail = slug_path(parts, 4);
        return Some(with_prefix2("spawn.", zone.as_slice(), ".table.", tail.as_slice()));
    }
    if part_is(parts, 0, "World") && n >= 4 && part_is(parts, 1, "LootTables") {
        let tail = slug_path(parts, 2);
        return Some(with_prefix("loot.", tail.as_slice()));
    }
    if part_is(parts, 0, "World") && n >= 3 && part_is(parts, 1, "Factions") {
        let tail = flat_slug(parts, 2);
        return Some(with_prefix("faction.", tail.as_slice()));
    }
    if part_is(parts, 0, "Mechanics") && n >= 3 && part_is(parts, 1, "Faction") {
        let tail = flat_slug(parts, 2);
        return Some(with_prefix("faction.", tail.as_slice()));
    }
    if part_is(parts, 0, "Mechanics") && n == 3 && part_is(parts, 1, "MobClasses") {
        let tail = flat_slug(parts, 2);
        return Some(with_prefix("mobclass.", tail.as_slice()));
    }
    if part_is(parts, 0, "Mechanics") && n == 3 && part_is(parts, 1, "MobQualities") {
        let tail = flat_slug(parts, 2);
        return Some(with_prefix("mobquality.", tail.as_slice()));
    }
    if part_is(parts, 0, "Mechanics") && n == 3 && part_is(parts, 1, "MobKindTemplates") {
        let tail = flat_slug(parts, 2);
        return Some(with_prefix("mobkind.mob-kind-templates.", tail.as_slice()));
    }
    if part_is(parts, 0, "Mechanics") && n >= 3
        && (part_is(parts, 1, "Creatures") || part_is(parts, 1, "Characters")) {
        let marker = chars_of(".(MobKind)");
        if find(parts[n - 1].as_slice(), marker.as_slice()).is_some() {
            let tail = slug_path(parts, 1);
            return Some(with_prefix("mobkind.", tail.as_slice()));
        }
    }
    None
}

/// The canonical id of a source path, `None` where it names nothing that
/// gets a public id.
pub fn canonical_id_from_source_path(path: &str) -> (out: Option<String>)
    ensures
        opt_text(out) == canonical_id_of(path@),
{
    let chars = chars_of(path);
    let parts = path_parts_vec(chars.as_slice());
    match id_of_parts_vec(&parts) {
        Some(id) => Some(string_of(id.as_slice())),
        None => None,
    }
}

/// The mob kind id of a path that holds a `MobKind` document.
pub fn mobkind_id_from_source_path(path: &str) -> (out: Option<String>)
    ensures
        opt_text(out) == mobkind_id_of(path@),
{
    let chars = chars_of(path);
    let parts = path_parts_vec(chars.as_slice());
    if parts.len() >= 3 && part_is(&parts, 0, "Mechanics")
        && (part_is(&parts, 1, "Creatures") || part_is(&parts, 1, "Characters")) {
        let tail = slug_path(&parts, 1);
        return Some(string_of(with_prefix("mobkind.", tail.as_slice()).as_slice()));
    }
    match id_of_parts_vec(&parts) {
        Some(id) => Some(string_of(id.as_slice())),
        None => None,
    }
}

pub fn trim_lead_slash_vec(s: &[char]) -> (out: Vec<char>)
    ensures
        out@ == trim_lead_slash(s@),
{
    let mut start: usize = 0;
    assert(s@.subrange(0, s@.len() as int) =~= s@);
    while start < s.len() && s[start] == '/'
        invariant
            start <= s@.len(),
            trim_lead_slash(s@.subrange(start as int, s@.len() as int)) == trim_lead_slash(s@),
        decreases s@.len() - start,
    {
        assert(s@.subrange(start as int, s@.len() as int).drop_first()
            =~= s@.subrange(start + 1, s@.len() as int));
        start = start + 1;
    }
    slice_range(s, start, s.len())
}

/// The canonical id of an href such as `/Items/Junk/Fur.xdb#xpointer(/Item)`.
pub fn canonical_id_from_href(href: &str) -> (out: Option<String>)
    ensures
        opt_text(out) == href_id_of(href@),
{
    let chars = chars_of(href);
    let path = before_first_vec(chars.as_slice(), '#');
    let trimmed = trim_lead_slash_vec(path.as_slice());
    let parts = path_parts_vec(trimmed.as_slice());
    match id_of_parts_vec(&parts) {
        Some(id) => Some(string_of(id.as_slice())),
        None => None,
    }
}


/// A path below `Mechanics/Faction` with at least one more part names a
/// faction: its id is `faction.` and the tail's parts slugged and joined by
/// hyphens into one segment.
pub proof fn lemma_mechanics_faction_id(path: Seq<char>, tail: Seq<Seq<char>>)
    requires
        path_parts(path) == seq!["Mechanics"@, "Faction"@] + tail,
        tail.len() >= 1,
    ensures
        canonical_id_of(path) == Some("faction."@ + bounded_of(join(segments_of(tail), "-"@), id_limit())),
{
    reveal_strlit("Mechanics");
    reveal_strlit("Faction");
    reveal_strlit("Items");
    reveal_strlit("World");
    reveal_strlit("Characters");
    reveal_strlit("Creatures");
    reveal_strlit("Maps");
    let parts = path_parts(path);
    assert(parts[0] == "Mechanics"@);
    assert(parts[1] == "Faction"@);
    assert(parts[0] != "Items"@);
    assert(parts[0] != "World"@);
    assert(parts[0] != "Characters"@);
    assert(parts[0][0] != "Creatures"@[0]);
    assert(parts[0] != "Creatures"@);
    assert(parts[0] != "Maps"@);
    assert(parts.skip(2) =~= tail);
}

/// A path with fewer than three parts names nothing that gets an id.
pub proof fn lemma_short_paths_have_no_id(path: Seq<char>)
    requires
        path_parts(path).len() < 3,
    ensures
        canonical_id_of(path) is None,
{
}

/// An item path `Items/<category>/<tail..>` maps to `item.`, the category's
/// slug, a dot, and the tail's pieces (each part split at `_`, `.xdb`
/// dropped) slugged and joined by dots.
pub proof fn lemma_item_id(path: Seq<char>, category: Seq<char>, tail: Seq<Seq<char>>)
    requires
        path_parts(path) == seq!["Items"@, category] + tail,
        tail.len() >= 1,
    ensures
        canonical_id_of(path) == Some("item."@ + slug_of(category) + "."@
            + bounded_of(join(item_pieces(tail), "."@), id_limit())),
{
    let parts = path_parts(path);
    assert(parts[0] == "Items"@);
    assert(parts.skip(2) =~= tail);
}

/// A quest path `World/Quests/<zone>/<tail..>` maps to `quest.`, the zone's
/// canonical slug, a dot, and the tail's slugs joined by dots, where a file
/// named like its directory does not repeat it.
pub proof fn lemma_quest_id(path: Seq<char>, zone: Seq<char>, tail: Seq<Seq<char>>)
    requires
        path_parts(path) == seq!["World"@, "Quests"@, zone] + tail,
        tail.len() >= 1,
    ensures
        canonical_id_of(path) == Some("quest."@ + canonical_zone_of(zone) + "."@
            + quest_slug_path_of(tail)),
{
    reveal_strlit("Items");
    reveal_strlit("World");
    let parts = path_parts(path);
    assert(parts[0] == "World"@);
    assert(parts[1] == "Quests"@);
    assert(parts[0][0] != "Items"@[0]);
    assert(parts[0] != "Items"@);
    assert(parts.skip(3) =~= tail);
}

/// A mob path `<Characters|Creatures>/<family>/Instances/<zone>/<tail..>`
/// maps to `mob.`, the zone, the family and the tail's dotted slugs.
pub proof fn lemma_mob_id(path: Seq<char>, top: Seq<char>, family: Seq<char>, zone: Seq<char>,
    tail: Seq<Seq<char>>)
    requires
        top == "Characters"@ || top == "Creatures"@,
        path_parts(path) == seq![top, family, "Instances"@, zone] + tail,
        tail.len() >= 1,
    ensures
        canonical_id_of(path) == Some("mob."@ + canonical_zone_of(zone) + "."@ + slug_of(family)
            + "."@ + bounded_of(join(segments_of(tail), "."@), id_limit())),
{
    reveal_strlit("Items");
    reveal_strlit("World");
    reveal_strlit("Characters");
    reveal_strlit("Creatures");
    let parts = path_parts(path);
    assert(parts[0] == top);
    assert(parts[2] == "Instances"@);
    assert(parts[0] != "Items"@);
    assert(parts[0] != "World"@);
    assert(parts.skip(4) =~= tail);
}

/// A spawn table path `Maps/<any>/SpawnTables/<zone>/<tail..>` maps to
/// `spawn.`, the zone, `.table.` and the tail's dotted slugs.
pub proof fn lemma_spawn_table_id(path: Seq<char>, map: Seq<char>, zone: Seq<char>,
    tail: Seq<Seq<char>>)
    requires
        path_parts(path) == seq!["Maps"@, map, "SpawnTables"@, zone] + tail,
        tail.len() >= 1,
    ensures
        canonical_id_of(path) == Some("spawn."@ + canonical_zone_of(zone) + ".table."@
            + bounded_of(join(segments_of(tail), "."@), id_limit())),
{
    reveal_strlit("Items");
    reveal_strlit("World");
    reveal_strlit("Characters");
    reveal_strlit("Creatures");
    reveal_strlit("Maps");
    let parts = path_parts(path);
    assert(parts[0] == "Maps"@);
    assert(parts[2] == "SpawnTables"@);
    assert(parts[0] != "Items"@);
    assert(parts[0] != "World"@);
    assert(parts[0] != "Characters"@);
    assert(parts[0] != "Creatures"@);
    assert(parts.skip(4) =~= tail);
}

/// A loot table path `World/LootTables/<tail..>` with at least two tail
/// parts maps to `loot.` and the tail's dotted slugs.
pub proof fn lemma_loot_table_id(path: Seq<char>, tail: Seq<Seq<char>>)
    requires
        path_parts(path) == seq!["World"@, "LootTables"@] + tail,
        tail.len() >= 2,
    ensures
        canonical_id_of(path) == Some("loot."@ + bounded_of(join(segments_of(tail), "."@), id_limit())),
{
    reveal_strlit("Items");
    reveal_strlit("World");
    reveal_strlit("Quests");
    reveal_strlit("LootTables");
    reveal_strlit("Characters");
    reveal_strlit("Creatures");
    reveal_strlit("Maps");
    let parts = path_parts(path);
    assert(parts[0] == "World"@);
    assert(parts[1] == "LootTables"@);
    assert(parts[0] != "Characters"@);
    assert(parts[0] != "Creatures"@);
    assert(parts[0] != "Maps"@);
    assert(parts[0][0] != "Items"@[0]);
    assert(parts[0] != "Items"@);
    assert(parts[1] != "Quests"@);
    assert(parts.skip(2) =~= tail);
}

/// A faction path `World/Factions/<tail..>` maps to `faction.` and the tail's
/// slugs joined by hyphens into one segment.
pub proof fn lemma_world_faction_id(path: Seq<char>, tail: Seq<Seq<char>>)
    requires
        path_parts(path) == seq!["World"@, "Factions"@] + tail,
        tail.len() >= 1,
    ensures
        canonical_id_of(path) == Some("faction."@ + bounded_of(join(segments_of(tail), "-"@), id_limit())),
{
    reveal_strlit("Items");
    reveal_strlit("World");
    reveal_strlit("Quests");
    reveal_strlit("LootTables");
    reveal_strlit("Factions");
    reveal_strlit("Characters");
    reveal_strlit("Creatures");
    reveal_strlit("Maps");
    let parts = path_parts(path);
    assert(parts[0] == "World"@);
    assert(parts[1] == "Factions"@);
    assert(parts[0] != "Characters"@);
    assert(parts[0] != "Creatures"@);
    assert(parts[0] != "Maps"@);
    assert(parts[0][0] != "Items"@[0]);
    assert(parts[0] != "Items"@);
    assert(parts[1] != "Quests"@);
    assert(parts[1] != "LootTables"@);
    assert(parts.skip(2) =~= tail);
}

/// `Mechanics/MobClasses/<name>`, `Mechanics/MobQualities/<name>` and
/// `Mechanics/MobKindTemplates/<name>` map to `mobclass.`, `mobquality.` and
/// `mobkind.mob-kind-templates.` followed by the name's slug.
pub proof fn lemma_taxonomy_ids(path: Seq<char>, dir: Seq<char>, name: Seq<char>)
    requires
        path_parts(path) == seq!["Mechanics"@, dir, name],
    ensures
        dir == "MobClasses"@ ==> canonical_id_of(path)
            == Some("mobclass."@ + bounded_of(join(segments_of(seq![name]), "-"@), id_limit())),
        dir == "MobQualities"@ ==> canonical_id_of(path)
            == Some("mobquality."@ + bounded_of(join(segments_of(seq![name]), "-"@), id_limit())),
        dir == "MobKindTemplates"@ ==> canonical_id_of(path)
            == Some("mobkind.mob-kind-templates."@
                + bounded_of(join(segments_of(seq![name]), "-"@), id_limit())),
{
    reveal_strlit("Mechanics");
    reveal_strlit("Faction");
    reveal_strlit("Items");
    reveal_strlit("World");
    reveal_strlit("Characters");
    reveal_strlit("Creatures");
    reveal_strlit("Maps");
    reveal_strlit("MobClasses");
    reveal_strlit("MobQualities");
    reveal_strlit("MobKindTemplates");
    let parts = path_parts(path);
    assert(parts[0] == "Mechanics"@);
    assert(parts[0] != "Items"@);
    assert(parts[0] != "World"@);
    assert(parts[0] != "Characters"@);
    assert(parts[0][0] != "Creatures"@[0]);
    assert(parts[0] != "Creatures"@);
    assert(parts[0] != "Maps"@);
    assert(parts[1] == dir);
    assert(parts.len() == 3);
    assert(parts.skip(2) =~= seq![name]);
    if dir == "MobClasses"@ {
        assert(parts[1] != "Faction"@);
    }
    if dir == "MobQualities"@ {
        assert(parts[1] != "Faction"@);
        assert(parts[1] != "MobClasses"@);
    }
    if dir == "MobKindTemplates"@ {
        assert(parts[1] != "Faction"@);
        assert(parts[1] != "MobClasses"@);
        assert(parts[1] != "MobQualities"@);
    }
}

/// A file under `Mechanics/Creatures` or `Mechanics/Characters` whose name
/// carries the `.(MobKind)` marker maps to `mobkind.` and the dotted slugs of
/// the path from `Creatures`/`Characters` on.
pub proof fn lemma_marked_mob_kind_id(path: Seq<char>, dir: Seq<char>, tail: Seq<Seq<char>>)
    requires
        dir == "Creatures"@ || dir == "Characters"@,
        path_parts(path) == seq!["Mechanics"@, dir] + tail,
        tail.len() >= 1,
        contains(tail.last(), ".(MobKind)"@),
    ensures
        canonical_id_of(path) == Some("mobkind."@
            + bounded_of(join(segments_of(seq![dir] + tail), "."@), id_limit())),
{
    reveal_strlit("Mechanics");
    reveal_strlit("Faction");
    reveal_strlit("Items");
    reveal_strlit("World");
    reveal_strlit("Characters");
    reveal_strlit("Creatures");
    reveal_strlit("Maps");
    reveal_strlit("MobClasses");
    reveal_strlit("MobQualities");
    reveal_strlit("MobKindTemplates");
    let parts = path_parts(path);
    let n = parts.len();
    assert(parts[0] == "Mechanics"@);
    assert(parts[1] == dir);
    assert(parts[n - 1] == tail.last());
    assert(parts[0] != "Items"@);
    assert(parts[0] != "World"@);
    assert(parts[0] != "Characters"@);
    assert(parts[0][0] != "Creatures"@[0]);
    assert(parts[0] != "Creatures"@);
    assert(parts[0] != "Maps"@);
    assert(parts[1] != "Faction"@);
    assert(parts[1][0] != "MobClasses"@[0]);
    assert(parts[1] != "MobClasses"@);
    assert(parts[1] != "MobQualities"@);
    assert(parts[1] != "MobKindTemplates"@);
    assert(parts.skip(1) =~= seq![dir] + tail);
}

} // verus!
