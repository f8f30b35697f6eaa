//! Resolving the hrefs that source documents carry, and the ordering every
//! source listing uses.
//!
//! Paths are `/`-separated text. A path is read as its components, as
//! `std::path::Path::components` reads a Unix path: an optional root `/`, a
//! leading `.`, then the non-empty pieces between separators, where `.`
//! pieces vanish and `..` stays a component of its own.

use vstd::prelude::*;
use crate::text::{
    split, split_vec, lemma_split_nonempty, views_of, join, join_vec, trim, trim_vec,
    before_first, before_first_vec, replace_char, replace_char_vec, chars_of, string_of,
    eq_str, seq_eq, copy_chars, slice_range, lower, lower_vec, push_str, push_chars,
    is_upper, lower_char, char_lower,
};
use crate::reference::{slug_of, slug_vec};

verus! {

// ----- components -----------------------------------------------------------

/// A component that names a file or directory (not the root, `.` or `..`).
pub open spec fn is_normal(c: Seq<char>) -> bool {
    c != "/"@ && c != "."@ && c != ".."@
}

/// The components that pieces after the first make: empty and `.` pieces
/// vanish.
pub open spec fn inner_comps(pieces: Seq<Seq<char>>) -> Seq<Seq<char>>
    decreases pieces.len(),
{
    if pieces.len() == 0 {
        pieces
    } else {
        let r = inner_comps(pieces.drop_last());
        let p = pieces.last();
        if p.len() == 0 || p == "."@ {
            r
        } else {
            r.push(p)
        }
    }
}

/// The components of a path; the root is written `/`, a leading current
/// directory `.`.
pub open spec fn comps_of(s: Seq<char>) -> Seq<Seq<char>> {
    let pieces = split(s, '/');
    if s.len() > 0 && s[0] == '/' {
        seq!["/"@] + inner_comps(pieces.skip(1))
    } else if pieces[0] == "."@ {
        seq!["."@] + inner_comps(pieces.skip(1))
    } else {
        inner_comps(pieces)
    }
}

/// The components of `base` joined with the relative or rooted text `tail`.
pub open spec fn join_comps(base: Seq<Seq<char>>, tail: Seq<char>) -> Seq<Seq<char>> {
    if (tail.len() > 0 && tail[0] == '/') || base.len() == 0 {
        comps_of(tail)
    } else {
        base + inner_comps(split(tail, '/'))
    }
}

/// The components of a path's parent; `None` for the empty path and a root.
pub open spec fn parent_comps(c: Seq<Seq<char>>) -> Option<Seq<Seq<char>>> {
    if c.len() == 0 || c.last() == "/"@ {
        None
    } else {
        Some(c.drop_last())
    }
}

/// `.` and `..` collapsed textually: `..` removes a preceding name and is
/// kept where none precedes it.
pub open spec fn normalize_comps(c: Seq<Seq<char>>) -> Seq<Seq<char>>
    decreases c.len(),
{
    if c.len() == 0 {
        c
    } else {
        let r = normalize_comps(c.drop_last());
        let x = c.last();
        if x == "."@ {
            r
        } else if x == ".."@ {
            if r.len() > 0 && is_normal(r.last()) {
                r.drop_last()
            } else {
                r.push(x)
            }
        } else {
            r.push(x)
        }
    }
}

/// The text of a path made of components `c`.
pub open spec fn path_text(c: Seq<Seq<char>>) -> Seq<char> {
    if c.len() > 0 && c[0] == "/"@ {
        "/"@ + join(c.skip(1), "/"@)
    } else {
        join(c, "/"@)
    }
}

pub open spec fn comps_prefix(c: Seq<Seq<char>>, base: Seq<Seq<char>>) -> bool {
    base.len() <= c.len() && c.subrange(0, base.len() as int) == base
}

/// The components an href resolves to: a rooted href below `src`, any other
/// below the directory of `referrer`.
pub open spec fn joined_target(src: Seq<char>, referrer: Seq<char>, target: Seq<char>) -> Option<Seq<Seq<char>>> {
    let normalized = replace_char(target, '\\', '/');
    if normalized[0] == '/' {
        Some(join_comps(comps_of(src), normalized.skip(1)))
    } else {
        match parent_comps(comps_of(referrer)) {
            Some(p) => Some(join_comps(p, normalized)),
            None => None,
        }
    }
}

/// What `resolve_href` returns: the cleaned path and the path relative to
/// `src`; `None` for an empty target, a referrer without a parent, or a
/// target outside `src`.
pub open spec fn resolve_of(src: Seq<char>, referrer: Seq<char>, href: Seq<char>) -> Option<(Seq<char>, Seq<char>)> {
    let target = trim(before_first(href, '#'));
    if target.len() == 0 {
        None
    } else {
        match joined_target(src, referrer, target) {
            None => None,
            Some(path) => {
                let cleaned = normalize_comps(path);
                let base = comps_of(src);
                if comps_prefix(cleaned, base) {
                    Some((path_text(cleaned), join(cleaned.skip(base.len() as int), "/"@)))
                } else {
                    None
                }
            },
        }
    }
}

fn is_normal_exec(c: &[char]) -> (r: bool)
    ensures
        r == is_normal(c@),
{
    !eq_str(c, "/") && !eq_str(c, ".") && !eq_str(c, "..")
}

fn inner_comps_vec(pieces: &Vec<Vec<char>>, from: usize) -> (out: Vec<Vec<char>>)
    requires
        from <= pieces@.len(),
    ensures
        views_of(out@) == inner_comps(views_of(pieces@).skip(from as int)),
{
    let ghost all = views_of(pieces@);
    let mut out: Vec<Vec<char>> = Vec::new();
    let mut i: usize = from;
    while i < pieces.len()
        invariant
            from <= i <= pieces@.len(),
            all == views_of(pieces@),
            views_of(out@) == inner_comps(all.subrange(from as int, i as int)),
        decreases pieces@.len() - i,
    {
        assert(all.subrange(from as int, i + 1).drop_last() =~= all.subrange(from as int, i as int));
        assert(all.subrange(from as int, i + 1).last() == pieces@[i as int]@);
        if pieces[i].len() > 0 && !eq_str(pieces[i].as_slice(), ".") {
            let ghost before = views_of(out@);
            let piece = copy_chars(pieces[i].as_slice());
            out.push(piece);
            assert(views_of(out@) =~= before.push(piece@));
        }
        i = i + 1;
    }
    assert(all.subrange(from as int, pieces@.len() as int) =~= all.skip(from as int));
    out
}

fn single(text: &str) -> (out: Vec<Vec<char>>)
    ensures
        views_of(out@) == seq![text@],
{
    let mut out: Vec<Vec<char>> = Vec::new();
    out.push(chars_of(text));
    assert(views_of(out@) =~= seq![text@]);
    out
}

fn append_comps(a: &mut Vec<Vec<char>>, b: Vec<Vec<char>>)
    ensures
        views_of(final(a)@) == views_of(old(a)@) + views_of(b@),
{
    let ghost start = views_of(a@);
    let ghost tail = views_of(b@);
    let mut i: usize = 0;
    while i < b.len()
        invariant
            i <= b@.len(),
            tail == views_of(b@),
            views_of(a@) == start + tail.subrange(0, i as int),
        decreases b@.len() - i,
    {
        let ghost before = views_of(a@);
        let piece = copy_chars(b[i].as_slice());
        a.push(piece);
        assert(views_of(a@) =~= before.push(piece@));
        assert(start + tail.subrange(0, i + 1) =~= (start + tail.subrange(0, i as int)).push(tail[i as int]));
        i = i + 1;
    }
    assert(tail.subrange(0, b@.len() as int) =~= tail);
}

/// The components of a path.
pub fn comps_vec(s: &[char]) -> (out: Vec<Vec<char>>)
    ensures
        views_of(out@) == comps_of(s@),
{
    let pieces = split_vec(s, '/');
    proof { lemma_split_nonempty(s@, '/'); }
    assert(views_of(pieces@) =~= split(s@, '/'));
    if s.len() > 0 && s[0] == '/' {
        let mut out = single("/");
        append_comps(&mut out, inner_comps_vec(&pieces, 1));
        out
    } else if eq_str(pieces[0].as_slice(), ".") {
        let mut out = single(".");
        append_comps(&mut out, inner_comps_vec(&pieces, 1));
        out
    } else {
        let out = inner_comps_vec(&pieces, 0);
        assert(views_of(pieces@).skip(0) =~= views_of(pieces@));
        out
    }
}

fn join_comps_vec(base: Vec<Vec<char>>, tail: &[char]) -> (out: Vec<Vec<char>>)
    ensures
        views_of(out@) == join_comps(views_of(base@), tail@),
{
    if (tail.len() > 0 && tail[0] == '/') || base.len() == 0 {
        comps_vec(tail)
    } else {
        let pieces = split_vec(tail, '/');
        assert(views_of(pieces@) =~= split(tail@, '/'));
        let inner = inner_comps_vec(&pieces, 0);
        assert(views_of(pieces@).skip(0) =~= views_of(pieces@));
        let mut out = base;
        append_comps(&mut out, inner);
        out
    }
}

fn normalize_comps_vec(c: &Vec<Vec<char>>) -> (out: Vec<Vec<char>>)
    ensures
        views_of(out@) == normalize_comps(views_of(c@)),
{
    let ghost all = views_of(c@);
    let mut out: Vec<Vec<char>> = Vec::new();
    let mut i: usize = 0;
    while i < c.len()
        invariant
            i <= c@.len(),
            all == views_of(c@),
            views_of(out@) == normalize_comps(all.subrange(0, i as int)),
        decreases c@.len() - i,
    {
        assert(all.subrange(0, i + 1).drop_last() =~= all.subrange(0, i as int));
        assert(all.subrange(0, i + 1).last() == c@[i as int]@);
        let ghost before = views_of(out@);
        if eq_str(c[i].as_slice(), ".") {
        } else if eq_str(c[i].as_slice(), "..") {
            if out.len() > 0 && is_normal_exec(out[out.len() - 1].as_slice()) {
                out.pop();
                assert(views_of(out@) =~= before.drop_last());
            } else {
                out.push(copy_chars(c[i].as_slice()));
                assert(views_of(out@) =~= before.push(all[i as int]));
            }
        } else {
            out.push(copy_chars(c[i].as_slice()));
            assert(views_of(out@) =~= before.push(all[i as int]));
        }
        i = i + 1;
    }
    assert(all.subrange(0, c@.len() as int) =~= all);
    out
}

fn tail_comps(c: &Vec<Vec<char>>, from: usize) -> (out: Vec<Vec<char>>)
    requires
        from <= c@.len(),
    ensures
        views_of(out@) == views_of(c@).skip(from as int),
{
    let mut out: Vec<Vec<char>> = Vec::new();
    let mut i: usize = from;
    while i < c.len()
        invariant
            from <= i <= c@.len(),
            views_of(out@) == views_of(c@).subrange(from as int, i as int),
        decreases c@.len() - i,
    {
        let ghost before = views_of(out@);
        let piece = copy_chars(c[i].as_slice());
        out.push(piece);
        assert(views_of(out@) =~= before.push(piece@));
        assert(views_of(out@) =~= views_of(c@).subrange(from as int, i + 1));
        i = i + 1;
    }
    assert(views_of(c@).subrange(from as int, c@.len() as int) =~= views_of(c@).skip(from as int));
    out
}

fn path_text_vec(c: &Vec<Vec<char>>) -> (out: Vec<char>)
    ensures
        out@ == path_text(views_of(c@)),
{
    let slash = chars_of("/");
    if c.len() > 0 && eq_str(c[0].as_slice(), "/") {
        let rest = tail_comps(c, 1);
        let joined = join_vec(&rest, slash.as_slice());
        let mut out = chars_of("/");
        push_chars(&mut out, joined.as_slice());
        out
    } else {
        join_vec(c, slash.as_slice())
    }
}

fn comps_prefix_exec(c: &Vec<Vec<char>>, base: &Vec<Vec<char>>) -> (r: bool)
    ensures
        r == comps_prefix(views_of(c@), views_of(base@)),
{
    if base.len() > c.len() {
        return false;
    }
    let mut i: usize = 0;
    while i < base.len()
        invariant
            base@.len() <= c@.len(),
            i <= base@.len(),
            forall|k: int| 0 <= k < i ==> views_of(c@)[k] == views_of(base@)[k],
        decreases base@.len() - i,
    {
        if !seq_eq(c[i].as_slice(), base[i].as_slice()) {
            assert(views_of(c@).subrange(0, base@.len() as int)[i as int] != views_of(base@)[i as int]);
            return false;
        }
        i = i + 1;
    }
    assert(views_of(c@).subrange(0, base@.len() as int) =~= views_of(base@));
    true
}

/// Resolves one href against the source root and the file that carried it.
///
/// Hrefs come rooted (`/World/Factions/Wild.xdb`) or relative to the referring
/// file (`Common.xdb`, `../Shared/Common.xdb`), either shape with an
/// `#xpointer(...)` fragment. Returns the cleaned path and the root-relative
/// path used to mint canonical ids.
pub fn resolve_href(src: &str, referrer: &str, href: &str) -> (out: Option<(String, String)>)
    ensures
        match (out, resolve_of(src@, referrer@, href@)) {
            (Some(r), Some(s)) => r.0@ == s.0 && r.1@ == s.1,
            (None, None) => true,
            _ => false,
        },
{
    let href_chars = chars_of(href);
    let head = before_first_vec(href_chars.as_slice(), '#');
    let target = trim_vec(head.as_slice());
    if target.len() == 0 {
        return None;
    }
    let normalized = replace_char_vec(target.as_slice(), '\\', '/');
    let src_chars = chars_of(src);
    let path = if normalized[0] == '/' {
        let rooted = slice_range(normalized.as_slice(), 1, normalized.len());
        assert(rooted@ =~= normalized@.skip(1));
        join_comps_vec(comps_vec(src_chars.as_slice()), rooted.as_slice())
    } else {
        let referrer_chars = chars_of(referrer);
        let mut parent = comps_vec(referrer_chars.as_slice());
        if parent.len() == 0 || eq_str(parent[parent.len() - 1].as_slice(), "/") {
            return None;
        }
        let ghost before = views_of(parent@);
        parent.pop();
        assert(views_of(parent@) =~= before.drop_last());
        join_comps_vec(parent, normalized.as_slice())
    };
    let cleaned = normalize_comps_vec(&path);
    let base = comps_vec(src_chars.as_slice());
    if !comps_prefix_exec(&cleaned, &base) {
        return None;
    }
    let text = path_text_vec(&cleaned);
    let relative_comps = tail_comps(&cleaned, base.len());
    let slash = chars_of("/");
    let relative = join_vec(&relative_comps, slash.as_slice());
    Some((string_of(text.as_slice()), string_of(relative.as_slice())))
}

// ----- localization keys ----------------------------------------------------

/// `relative` without a trailing `.txt` in any ASCII case.
pub open spec fn strip_txt_of(relative: Seq<char>) -> Seq<char> {
    if relative.len() >= 4 && lower(relative.subrange(relative.len() - 4, relative.len() as int)) == ".txt"@ {
        relative.subrange(0, relative.len() - 4)
    } else {
        relative
    }
}

fn strip_txt_vec(relative: &[char]) -> (out: Vec<char>)
    ensures
        out@ == strip_txt_of(relative@),
{
    let n = relative.len();
    if n >= 4 {
        let last = slice_range(relative, n - 4, n);
        let folded = lower_vec(last.as_slice());
        if eq_str(folded.as_slice(), ".txt") {
            return slice_range(relative, 0, n - 4);
        }
    }
    copy_chars(relative)
}

/// Drops a trailing `.txt`, in any ASCII case.
pub fn strip_txt(relative: &str) -> (out: String)
    ensures
        out@ == strip_txt_of(relative@),
{
    let chars = chars_of(relative);
    string_of(strip_txt_vec(chars.as_slice()).as_slice())
}

/// The canonical localization key a `loc_ref` href names: the root-relative
/// path with the `.txt` dropped.
pub open spec fn loc_key_of(src: Seq<char>, referrer: Seq<char>, href: Seq<char>) -> Option<Seq<char>> {
    match resolve_of(src, referrer, href) {
        Some(r) => Some(strip_txt_of(r.1)),
        None => None,
    }
}

/// The localization key one `loc_ref` href names.
pub fn loc_key(src: &str, referrer: &str, href: &str) -> (out: Option<String>)
    ensures
        match (out, loc_key_of(src@, referrer@, href@)) {
            (Some(k), Some(s)) => k@ == s,
            (None, None) => true,
            _ => false,
        },
{
    match resolve_href(src, referrer, href) {
        Some((_, relative)) => Some(strip_txt(relative.as_str())),
        None => None,
    }
}

// ----- directory names ------------------------------------------------------

/// A directory entry answers to a requested name when the two are equal up
/// to ASCII case or slug to the same text.
pub open spec fn names_match(entry: Seq<char>, name: Seq<char>) -> bool {
    lower(entry) == lower(name) || slug_of(entry) == slug_of(name)
}

/// Whether a directory called `entry` answers to the requested `name`.
pub fn directory_matches(entry: &str, name: &str) -> (r: bool)
    ensures
        r == names_match(entry@, name@),
{
    let e = chars_of(entry);
    let n = chars_of(name);
    let le = lower_vec(e.as_slice());
    let ln = lower_vec(n.as_slice());
    if seq_eq(le.as_slice(), ln.as_slice()) {
        return true;
    }
    let se = slug_vec(e.as_slice());
    let sn = slug_vec(n.as_slice());
    seq_eq(se.as_slice(), sn.as_slice())
}

// ----- ordering -------------------------------------------------------------

/// Lexicographic order on text by code point, as `str` orders it.
pub open spec fn lex_le(a: Seq<char>, b: Seq<char>) -> bool
    decreases a.len(),
{
    if a.len() == 0 {
        true
    } else if b.len() == 0 {
        false
    } else if a[0] != b[0] {
        a[0] < b[0]
    } else {
        lex_le(a.drop_first(), b.drop_first())
    }
}

pub proof fn lemma_lex_total(a: Seq<char>, b: Seq<char>)
    ensures
        lex_le(a, b) || lex_le(b, a),
    decreases a.len(),
{
    if a.len() > 0 && b.len() > 0 && a[0] == b[0] {
        lemma_lex_total(a.drop_first(), b.drop_first());
    }
}

pub proof fn lemma_lex_transitive(a: Seq<char>, b: Seq<char>, c: Seq<char>)
    requires
        lex_le(a, b),
        lex_le(b, c),
    ensures
        lex_le(a, c),
    decreases a.len(),
{
    if a.len() > 0 && b.len() > 0 && c.len() > 0 && a[0] == b[0] && b[0] == c[0] {
        lemma_lex_transitive(a.drop_first(), b.drop_first(), c.drop_first());
    }
}

pub proof fn lemma_lex_antisym(a: Seq<char>, b: Seq<char>)
    requires
        lex_le(a, b),
        lex_le(b, a),
    ensures
        a == b,
    decreases a.len(),
{
    if a.len() > 0 && b.len() > 0 {
        lemma_lex_antisym(a.drop_first(), b.drop_first());
        assert(a =~= seq![a[0]] + a.drop_first());
        assert(b =~= seq![b[0]] + b.drop_first());
    } else {
        assert(a =~= b);
    }
}

pub fn lex_le_exec(a: &[char], b: &[char]) -> (r: bool)
    ensures
        r == lex_le(a@, b@),
{
    let mut i: usize = 0;
    assert(a@.skip(0) =~= a@);
    assert(b@.skip(0) =~= b@);
    while i < a.len() && i < b.len() && a[i] == b[i]
        invariant
            i <= a@.len(),
            i <= b@.len(),
            lex_le(a@.skip(i as int), b@.skip(i as int)) == lex_le(a@, b@),
        decreases a@.len() - i,
    {
        assert(a@.skip(i as int).drop_first() =~= a@.skip(i + 1));
        assert(b@.skip(i as int).drop_first() =~= b@.skip(i + 1));
        i = i + 1;
    }
    if i == a.len() {
        true
    } else if i == b.len() {
        false
    } else {
        a[i] < b[i]
    }
}

/// Listings sort by their lowercased text.
pub open spec fn path_le(a: Seq<char>, b: Seq<char>) -> bool {
    lex_le(lower(a), lower(b))
}

pub open spec fn sorted_paths(s: Seq<Seq<char>>) -> bool {
    forall|i: int, j: int| 0 <= i < j < s.len() ==> path_le(#[trigger] s[i], #[trigger] s[j])
}

pub open spec fn text_views(v: Seq<String>) -> Seq<Seq<char>> {
    v.map_values(|p: String| p@)
}

/// Sorts paths case-insensitively, so that a listing has one stable order
/// whatever order the file system gave.
pub fn sort_paths(paths: &mut Vec<String>)
    ensures
        text_views(final(paths)@).to_multiset() == text_views(old(paths)@).to_multiset(),
        sorted_paths(text_views(final(paths)@)),
{
    let ghost original = text_views(paths@);
    let mut sorted: Vec<String> = Vec::new();
    let mut keys: Vec<Vec<char>> = Vec::new();
    let n = paths.len();
    let mut i: usize = 0;
    assert(text_views(sorted@) =~= original.subrange(0, 0));
    while i < n
        invariant
            n == paths@.len(),
            original == text_views(paths@),
            i <= n,
            sorted@.len() == keys@.len(),
            forall|k: int| 0 <= k < keys@.len() ==> (#[trigger] keys@[k])@ == lower(sorted@[k]@),
            text_views(sorted@).to_multiset() == original.subrange(0, i as int).to_multiset(),
            sorted_paths(text_views(sorted@)),
        decreases n - i,
    {
        let item = paths[i].clone();
        let chars = chars_of(item.as_str());
        let key = lower_vec(chars.as_slice());
        let mut j: usize = 0;
        while j < keys.len() && lex_le_exec(keys[j].as_slice(), key.as_slice())
            invariant
                j <= keys@.len(),
                key@ == lower(item@),
                sorted@.len() == keys@.len(),
                forall|k: int| 0 <= k < keys@.len() ==> (#[trigger] keys@[k])@ == lower(sorted@[k]@),
                forall|k: int| 0 <= k < j ==> path_le(#[trigger] sorted@[k]@, item@),
            decreases keys@.len() - j,
        {
            j = j + 1;
        }
        proof {
            if j < keys@.len() {
                lemma_lex_total(lower(item@), lower(sorted@[j as int]@));
            }
        }
        let ghost before = text_views(sorted@);
        sorted.insert(j, item);
        keys.insert(j, key);
        proof {
            broadcast use vstd::seq_lib::group_to_multiset_ensures;
            let after = text_views(sorted@);
            assert(after =~= before.insert(j as int, item@));
            assert(original.subrange(0, i + 1) =~= original.subrange(0, i as int).push(item@));
            assert(after.to_multiset() =~= before.to_multiset().insert(item@)) by {
                assert(after.remove(j as int) =~= before);
                assert(after.remove(j as int).to_multiset() =~= after.to_multiset().remove(after[j as int]));
            }
            assert forall|a: int, b: int| 0 <= a < b < after.len() implies path_le(#[trigger] after[a], #[trigger] after[b]) by {
                if b < j {
                    assert(after[a] == before[a] && after[b] == before[b]);
                } else if b == j {
                    assert(after[a] == before[a]);
                } else if a == j {
                    assert(after[b] == before[b - 1]);
                    if b - 1 > j {
                        lemma_lex_transitive(lower(item@), lower(before[j as int]), lower(before[b - 1]));
                    }
                } else if a < j {
                    assert(after[a] == before[a] && after[b] == before[b - 1]);
                } else {
                    assert(after[a] == before[a - 1] && after[b] == before[b - 1]);
                }
            }
            assert forall|k: int| 0 <= k < keys@.len() implies (#[trigger] keys@[k])@ == lower(sorted@[k]@) by {
                if k < j {
                } else if k > j {
                }
            }
        }
        i = i + 1;
    }
    assert(original.subrange(0, n as int) =~= original);
    *paths = sorted;
}

/// `base` joined with `tail` as `Path::join` writes it: a rooted `tail`
/// replaces `base`, otherwise one `/` separates them unless `base` is empty
/// or already ends in one.
pub open spec fn join_text(base: Seq<char>, tail: Seq<char>) -> Seq<char> {
    if tail.len() > 0 && tail[0] == '/' {
        tail
    } else if base.len() == 0 || base.last() == '/' {
        base + tail
    } else {
        base + "/"@ + tail
    }
}

pub fn join_path(base: &str, tail: &str) -> (out: String)
    ensures
        out@ == join_text(base@, tail@),
{
    let b = chars_of(base);
    let t = chars_of(tail);
    if t.len() > 0 && t[0] == '/' {
        return string_of(t.as_slice());
    }
    let mut out = copy_chars(b.as_slice());
    if !(b.len() == 0 || b[b.len() - 1] == '/') {
        out.push('/');
    }
    push_chars(&mut out, t.as_slice());
    proof { reveal_strlit("/"); }
    assert(out@ =~= join_text(base@, tail@));
    string_of(out.as_slice())
}

} // verus!
