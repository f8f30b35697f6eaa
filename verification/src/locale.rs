//! Localization: every requested `loc_ref` becomes the string its `.txt`
//! file holds. The reference server tree is read first and a wider tree
//! fills its gaps; each entry records the root that supplied it, and a key
//! both trees hold with different text is reported rather than silently
//! resolved.

use vstd::prelude::*;
use crate::encoding::{decode, decoded_text, chosen_encoding, encoding_label};
use crate::report::{tally_views, tally_wf, count_in, tally_add};
use crate::scan::{strip_txt, strip_txt_of, resolve_href, resolve_of};
use crate::reach::{ascending, id_set, insert_id};
use crate::text::{before_first, before_first_vec, lower, lower_vec, has_suffix, ends_with_str};
use crate::model::LocaleEntry;
use crate::source::opt_view;
use crate::text::{chars_of, string_of, seq_eq};

verus! {

/// The reference server tree.
pub open spec fn primary_root() -> Seq<char> {
    "classic-server-1-1-02-0"@
}

/// The wider server tree, read only to fill gaps the reference tree leaves.
pub open spec fn supplemental_root() -> Seq<char> {
    "classic-server-1-1"@
}

/// An href names a localization string: its path, before any `#`, ends in
/// `.txt`, in any case.
pub open spec fn is_loc_ref_of(href: Seq<char>) -> bool {
    has_suffix(lower(before_first(href, '#')), ".txt"@)
}

pub fn is_loc_ref(href: &str) -> (r: bool)
    ensures
        r == is_loc_ref_of(href@),
{
    let path = before_first_vec(chars_of(href).as_slice(), '#');
    ends_with_str(lower_vec(path.as_slice()).as_slice(), ".txt")
}

/// The source-relative `.txt` paths the hrefs of one referring file ask for.
pub open spec fn requested_by(src: Seq<char>, referrer: Seq<char>, hrefs: Seq<String>) -> Set<Seq<char>> {
    Set::new(|rel: Seq<char>| exists|i: int| 0 <= i < hrefs.len() && #[trigger] asks_for(src, referrer, hrefs[i]@, rel))
}

/// A `.txt` href that resolves to `rel`.
pub open spec fn asks_for(src: Seq<char>, referrer: Seq<char>, h: Seq<char>, rel: Seq<char>) -> bool {
    &&& is_loc_ref_of(h)
    &&& resolve_of(src, referrer, h) matches Some((_, r)) && r == rel
}

/// Adds to the ascending request list every `.txt` file the hrefs of one
/// referring file name, resolved against the source root and that file;
/// an href that resolves to nothing is passed over.
pub fn add_requests(requests: &mut Vec<String>, src: &str, referrer: &str, hrefs: &Vec<String>)
    requires
        ascending(old(requests)@),
    ensures
        ascending(final(requests)@),
        id_set(final(requests)@) == id_set(old(requests)@) + requested_by(src@, referrer@, hrefs@),
{
    let mut i: usize = 0;
    let ghost start = id_set(requests@);
    assert(requested_by(src@, referrer@, hrefs@.take(0)) =~= Set::<Seq<char>>::empty());
    assert(start + Set::<Seq<char>>::empty() =~= start);
    while i < hrefs.len()
        invariant
            i <= hrefs@.len(),
            ascending(requests@),
            id_set(requests@) == start + requested_by(src@, referrer@, hrefs@.take(i as int)),
        decreases hrefs@.len() - i,
    {
        let ghost before = id_set(requests@);
        let ghost h = hrefs@[i as int]@;
        let ghost prev = requested_by(src@, referrer@, hrefs@.take(i as int));
        let ghost next = requested_by(src@, referrer@, hrefs@.take(i + 1));
        assert forall|x: int| 0 <= x < i implies hrefs@.take(i + 1)[x] == #[trigger] hrefs@.take(i as int)[x] by {}
        assert(hrefs@.take(i + 1)[i as int] == hrefs@[i as int]);
        if is_loc_ref(hrefs[i].as_str()) {
            match resolve_href(src, referrer, hrefs[i].as_str()) {
                Some((_, relative)) => {
                    insert_id(requests, relative.as_str());
                    assert(next =~= prev.insert(relative@)) by {
                        assert forall|r: Seq<char>| #[trigger] next.contains(r) implies prev.insert(relative@).contains(r) by {
                            let k = choose|k: int| 0 <= k < hrefs@.take(i + 1).len() && #[trigger] asks_for(src@, referrer@, hrefs@.take(i + 1)[k]@, r);
                            if k < i {
                                assert(hrefs@.take(i as int)[k] == hrefs@.take(i + 1)[k]);
                            }
                        }
                        assert forall|r: Seq<char>| #[trigger] prev.insert(relative@).contains(r) implies next.contains(r) by {
                            if r != relative@ {
                                let k = choose|k: int| 0 <= k < hrefs@.take(i as int).len() && #[trigger] asks_for(src@, referrer@, hrefs@.take(i as int)[k]@, r);
                                assert(hrefs@.take(i as int)[k] == hrefs@.take(i + 1)[k]);
                            } else {
                                assert(asks_for(src@, referrer@, hrefs@.take(i + 1)[i as int]@, r));
                            }
                        }
                    }
                    assert(id_set(requests@) =~= start + next);
                },
                None => {
                    assert(next =~= prev) by {
                        assert forall|r: Seq<char>| #[trigger] next.contains(r) implies prev.contains(r) by {
                            let k = choose|k: int| 0 <= k < hrefs@.take(i + 1).len() && #[trigger] asks_for(src@, referrer@, hrefs@.take(i + 1)[k]@, r);
                            if k < i {
                                assert(hrefs@.take(i as int)[k] == hrefs@.take(i + 1)[k]);
                            }
                        }
                        assert forall|r: Seq<char>| #[trigger] prev.contains(r) implies next.contains(r) by {
                            let k = choose|k: int| 0 <= k < hrefs@.take(i as int).len() && #[trigger] asks_for(src@, referrer@, hrefs@.take(i as int)[k]@, r);
                            assert(hrefs@.take(i as int)[k] == hrefs@.take(i + 1)[k]);
                        }
                    }
                },
            }
        } else {
            assert(next =~= prev) by {
                assert forall|r: Seq<char>| #[trigger] next.contains(r) implies prev.contains(r) by {
                    let k = choose|k: int| 0 <= k < hrefs@.take(i + 1).len() && #[trigger] asks_for(src@, referrer@, hrefs@.take(i + 1)[k]@, r);
                    if k < i {
                        assert(hrefs@.take(i as int)[k] == hrefs@.take(i + 1)[k]);
                    }
                }
                assert forall|r: Seq<char>| #[trigger] prev.contains(r) implies next.contains(r) by {
                    let k = choose|k: int| 0 <= k < hrefs@.take(i as int).len() && #[trigger] asks_for(src@, referrer@, hrefs@.take(i as int)[k]@, r);
                    assert(hrefs@.take(i as int)[k] == hrefs@.take(i + 1)[k]);
                }
            }
        }
        i = i + 1;
    }
    assert(hrefs@.take(hrefs@.len() as int) =~= hrefs@);
}

/// One request's payloads: what the reference tree holds for it, and what
/// the wider tree holds, when each holds the file.
pub open spec fn bytes_views(v: Seq<Option<Vec<u8>>>) -> Seq<Option<Seq<u8>>> {
    v.map_values(|o: Option<Vec<u8>>| match o { Some(b) => Some(b@), None => None })
}

/// The entries the first `n` requests resolve to: key, text, and whether
/// the reference tree supplied it.
pub open spec fn resolved_entries(reqs: Seq<Seq<char>>, ps: Seq<Option<Seq<u8>>>, ss: Seq<Option<Seq<u8>>>, n: int)
    -> Seq<(Seq<char>, Seq<char>, bool)>
    decreases n,
{
    if n <= 0 {
        Seq::empty()
    } else {
        let rest = resolved_entries(reqs, ps, ss, n - 1);
        let key = strip_txt_of(reqs[n - 1]);
        match (ps[n - 1], ss[n - 1]) {
            (Some(p), _) => rest.push((key, decoded_text(p), true)),
            (None, Some(s)) => rest.push((key, decoded_text(s), false)),
            (None, None) => rest,
        }
    }
}

/// The keys of the first `n` requests that both trees hold with different
/// text.
pub open spec fn mismatched_keys(reqs: Seq<Seq<char>>, ps: Seq<Option<Seq<u8>>>, ss: Seq<Option<Seq<u8>>>, n: int)
    -> Seq<Seq<char>>
    decreases n,
{
    if n <= 0 {
        Seq::empty()
    } else {
        let rest = mismatched_keys(reqs, ps, ss, n - 1);
        match (ps[n - 1], ss[n - 1]) {
            (Some(p), Some(s)) => if decoded_text(p) != decoded_text(s) { rest.push(strip_txt_of(reqs[n - 1])) } else { rest },
            _ => rest,
        }
    }
}

/// The keys of the first `n` requests that neither tree holds.
pub open spec fn unresolved_keys(reqs: Seq<Seq<char>>, ps: Seq<Option<Seq<u8>>>, ss: Seq<Option<Seq<u8>>>, n: int)
    -> Seq<Seq<char>>
    decreases n,
{
    if n <= 0 {
        Seq::empty()
    } else {
        let rest = unresolved_keys(reqs, ps, ss, n - 1);
        if ps[n - 1] is None && ss[n - 1] is None { rest.push(strip_txt_of(reqs[n - 1])) } else { rest }
    }
}

/// Each request resolves from the reference tree when it holds the file, from
/// the wider tree only when the reference tree lacks it, and is reported
/// unresolved when neither holds it.
pub proof fn lemma_reference_tree_wins(reqs: Seq<Seq<char>>, ps: Seq<Option<Seq<u8>>>, ss: Seq<Option<Seq<u8>>>,
    n: int, i: int)
    requires
        0 <= i < n,
    ensures
        ps[i] matches Some(p) ==> resolved_entries(reqs, ps, ss, n).contains((strip_txt_of(reqs[i]), decoded_text(p), true)),
        ps[i] is None ==> (ss[i] matches Some(x) ==> resolved_entries(reqs, ps, ss, n).contains(
            (strip_txt_of(reqs[i]), decoded_text(x), false))),
        (ps[i] is None && ss[i] is None) ==> unresolved_keys(reqs, ps, ss, n).contains(strip_txt_of(reqs[i])),
    decreases n,
{
    let es = resolved_entries(reqs, ps, ss, n);
    let us = unresolved_keys(reqs, ps, ss, n);
    let prev = resolved_entries(reqs, ps, ss, n - 1);
    let uprev = unresolved_keys(reqs, ps, ss, n - 1);
    if i < n - 1 {
        lemma_reference_tree_wins(reqs, ps, ss, n - 1, i);
        assert forall|e: (Seq<char>, Seq<char>, bool)| prev.contains(e) implies es.contains(e) by {
            let k = choose|k: int| 0 <= k < prev.len() && prev[k] == e;
            match (ps[n - 1], ss[n - 1]) {
                (Some(p), _) => { assert(es[k] == prev[k]); },
                (None, Some(x)) => { assert(es[k] == prev[k]); },
                (None, None) => {},
            }
        }
        if ps[i] is None && ss[i] is None {
            let k = choose|k: int| 0 <= k < uprev.len() && uprev[k] == strip_txt_of(reqs[i]);
            if ps[n - 1] is None && ss[n - 1] is None {
                assert(us[k] == uprev[k]);
            }
        }
    } else {
        match (ps[n - 1], ss[n - 1]) {
            (Some(p), _) => { assert(es[prev.len() as int] == (strip_txt_of(reqs[i]), decoded_text(p), true)); },
            (None, Some(x)) => { assert(es[prev.len() as int] == (strip_txt_of(reqs[i]), decoded_text(x), false)); },
            (None, None) => { assert(us[uprev.len() as int] == strip_txt_of(reqs[i])); },
        }
    }
}

/// How many of the first `n` entries the reference tree supplied.
pub open spec fn primary_count(es: Seq<(Seq<char>, Seq<char>, bool)>, n: int) -> nat
    decreases n,
{
    if n <= 0 { 0 } else { primary_count(es, n - 1) + if es[n - 1].2 { 1nat } else { 0nat } }
}

/// How many of the payloads of the first `n` requests decode under the
/// encoding labelled `label`.
pub open spec fn label_count(ps: Seq<Option<Seq<u8>>>, ss: Seq<Option<Seq<u8>>>, label: Seq<char>, n: int) -> nat
    decreases n,
{
    if n <= 0 {
        0
    } else {
        label_count(ps, ss, label, n - 1)
            + (if ps[n - 1] matches Some(p) && encoding_label(chosen_encoding(p)) == label { 1nat } else { 0nat })
            + (if ss[n - 1] matches Some(s) && encoding_label(chosen_encoding(s)) == label { 1nat } else { 0nat })
    }
}

/// The root a locale document names: whichever tree supplied more entries,
/// the reference tree on a tie.
pub open spec fn document_root_of(from_primary: nat, from_supplemental: nat) -> Seq<char> {
    if from_primary >= from_supplemental { primary_root() } else { supplemental_root() }
}

/// The root an entry records: none where it is the document's.
pub open spec fn entry_root(primary: bool, document_root: Seq<char>) -> Option<Seq<char>> {
    let root = if primary { primary_root() } else { supplemental_root() };
    if root == document_root { None } else { Some(root) }
}

/// What resolving a zone's `loc_ref`s gives.
#[derive(Debug)]
pub struct LocaleResolution {
    pub entries: Vec<LocaleEntry>,
    pub document_root: String,
    pub from_primary: usize,
    pub from_supplemental: usize,
    pub mismatched: Vec<String>,
    pub unresolved: Vec<String>,
    /// How many payloads each encoding decoded, by label.
    pub encodings: Vec<(String, usize)>,
}

/// Nothing the zone asks for resolves, so there is nothing to write.
#[derive(Debug, Clone, PartialEq, Eq)]
pub enum LocaleError {
    NoneResolved { zone: String },
}

pub open spec fn locale_error_text(e: LocaleError) -> Seq<char> {
    match e {
        LocaleError::NoneResolved { zone } => "no loc_ref resolved for zone "@ + zone@ + "; nothing to write"@,
    }
}

impl LocaleError {
    pub fn message(&self) -> (r: String)
        ensures
            r@ == locale_error_text(*self),
    {
        let mut out: Vec<char> = Vec::new();
        match self {
            LocaleError::NoneResolved { zone } => {
                crate::text::push_str(&mut out, "no loc_ref resolved for zone ");
                crate::text::push_str(&mut out, zone.as_str());
                crate::text::push_str(&mut out, "; nothing to write");
            },
        }
        assert(out@ =~= locale_error_text(*self));
        string_of(out.as_slice())
    }
}

pub open spec fn text_views(v: Seq<String>) -> Seq<Seq<char>> {
    v.map_values(|s: String| s@)
}

fn own(s: &str) -> (out: String)
    ensures
        out@ == s@,
{
    string_of(chars_of(s).as_slice())
}

fn decode_counted(bytes: &Vec<u8>, encodings: &mut Vec<(String, usize)>, bound: Ghost<nat>) -> (text: String)
    requires
        tally_wf(tally_views(old(encodings)@)),
        forall|k: Seq<char>| #[trigger] count_in(tally_views(old(encodings)@), k) < bound@,
        bound@ <= usize::MAX,
    ensures
        text@ == decoded_text(bytes@),
        tally_wf(tally_views(final(encodings)@)),
        forall|k: Seq<char>| #[trigger] count_in(tally_views(final(encodings)@), k)
            == count_in(tally_views(old(encodings)@), k)
                + if k == encoding_label(chosen_encoding(bytes@)) { 1nat } else { 0nat },
{
    let (text, encoding) = decode(bytes.as_slice());
    let label = chars_of(encoding.label());
    assert(count_in(tally_views(encodings@), label@) < bound@);
    tally_add(encodings, label.as_slice(), usize::MAX);
    text
}

/// Resolves a zone's requested `loc_ref` files: `requests[i]` is the
/// source-relative path of one `.txt` file, `primary[i]` its bytes in the
/// reference tree and `supplemental[i]` its bytes in the wider tree, when
/// each holds it. The reference tree wins; the wider tree fills gaps; a key
/// both hold with different text is reported; the document names the tree
/// that supplied more entries and each entry from the other names its own.
pub fn resolve_locale(zone: &str, requests: &Vec<String>, primary: &Vec<Option<Vec<u8>>>,
    supplemental: &Vec<Option<Vec<u8>>>) -> (r: Result<LocaleResolution, LocaleError>)
    requires
        primary@.len() == requests@.len(),
        supplemental@.len() == requests@.len(),
        2 * requests@.len() < usize::MAX,
    ensures
        ({
            let reqs = text_views(requests@);
            let ps = bytes_views(primary@);
            let ss = bytes_views(supplemental@);
            let n = requests@.len() as int;
            let es = resolved_entries(reqs, ps, ss, n);
            match r {
                Err(e) => es.len() == 0 && (e matches LocaleError::NoneResolved { zone: z } && z@ == zone@),
                Ok(out) => {
                    &&& es.len() > 0
                    &&& out.from_primary == primary_count(es, es.len() as int)
                    &&& out.from_supplemental == es.len() - primary_count(es, es.len() as int)
                    &&& out.document_root@ == document_root_of(out.from_primary as nat, out.from_supplemental as nat)
                    &&& out.entries@.len() == es.len()
                    &&& forall|k: int| 0 <= k < es.len() ==> {
                        &&& (#[trigger] out.entries@[k]).key@ == es[k].0
                        &&& out.entries@[k].text@ == es[k].1
                        &&& opt_view(out.entries@[k].source_root) == entry_root(es[k].2, out.document_root@)
                    }
                    &&& text_views(out.mismatched@) == mismatched_keys(reqs, ps, ss, n)
                    &&& text_views(out.unresolved@) == unresolved_keys(reqs, ps, ss, n)
                    &&& tally_wf(tally_views(out.encodings@))
                    &&& forall|label: Seq<char>| #[trigger] count_in(tally_views(out.encodings@), label)
                        == label_count(ps, ss, label, n)
                },
            }
        }),
{
    let ghost reqs = text_views(requests@);
    let ghost ps = bytes_views(primary@);
    let ghost ss = bytes_views(supplemental@);
    let mut raw: Vec<(String, String, bool)> = Vec::new();
    let mut mismatched: Vec<String> = Vec::new();
    let mut unresolved: Vec<String> = Vec::new();
    let mut encodings: Vec<(String, usize)> = Vec::new();
    let mut from_primary: usize = 0;
    assert(tally_views(encodings@) =~= Seq::<(Seq<char>, nat)>::empty());
    let mut i: usize = 0;
    while i < requests.len()
        invariant
            i <= requests@.len(),
            primary@.len() == requests@.len(),
            supplemental@.len() == requests@.len(),
            2 * requests@.len() < usize::MAX,
            reqs == text_views(requests@),
            ps == bytes_views(primary@),
            ss == bytes_views(supplemental@),
            raw@.map_values(|e: (String, String, bool)| (e.0@, e.1@, e.2)) == resolved_entries(reqs, ps, ss, i as int),
            from_primary == primary_count(resolved_entries(reqs, ps, ss, i as int), raw@.len() as int),
            raw@.len() <= i,
            from_primary <= raw@.len(),
            text_views(mismatched@) == mismatched_keys(reqs, ps, ss, i as int),
            text_views(unresolved@) == unresolved_keys(reqs, ps, ss, i as int),
            tally_wf(tally_views(encodings@)),
            forall|label: Seq<char>| #[trigger] count_in(tally_views(encodings@), label) == label_count(ps, ss, label, i as int),
            forall|label: Seq<char>| label_count(ps, ss, label, i as int) <= 2 * i,
        decreases requests@.len() - i,
    {
        proof { lemma_label_bound(ps, ss, i as int + 1); }
        let key = strip_txt(requests[i].as_str());
        let p = match &primary[i] {
            Some(b) => Some(decode_counted(b, &mut encodings, Ghost((2 * i + 1) as nat))),
            None => None,
        };
        let s = match &supplemental[i] {
            Some(b) => Some(decode_counted(b, &mut encodings, Ghost((2 * i + 2) as nat))),
            None => None,
        };
        let ghost before_raw = raw@.map_values(|e: (String, String, bool)| (e.0@, e.1@, e.2));
        let ghost before_mis = text_views(mismatched@);
        let ghost before_unres = text_views(unresolved@);
        let ghost es0 = resolved_entries(reqs, ps, ss, i as int);
        assert(ps[i as int] == match &primary@[i as int] { Some(b) => Some(b@), None => None::<Seq<u8>> });
        assert(ss[i as int] == match &supplemental@[i as int] { Some(b) => Some(b@), None => None::<Seq<u8>> });
        assert(reqs[i as int] == requests@[i as int]@);
        match (p, s) {
            (Some(t), other) => {
                match &other {
                    Some(u) => if !seq_eq(chars_of(u.as_str()).as_slice(), chars_of(t.as_str()).as_slice()) {
                        mismatched.push(own(key.as_str()));
                        assert(text_views(mismatched@) =~= before_mis.push(key@));
                    },
                    None => {},
                }
                let ghost tv = t@;
                raw.push((key, t, true));
                assert(raw@.map_values(|e: (String, String, bool)| (e.0@, e.1@, e.2)) =~= before_raw.push((strip_txt_of(reqs[i as int]), tv, true)));
                from_primary = from_primary + 1;
                proof { lemma_primary_count_push(es0, (strip_txt_of(reqs[i as int]), tv, true)); }
            },
            (None, Some(u)) => {
                let ghost uv = u@;
                raw.push((key, u, false));
                assert(raw@.map_values(|e: (String, String, bool)| (e.0@, e.1@, e.2)) =~= before_raw.push((strip_txt_of(reqs[i as int]), uv, false)));
                proof { lemma_primary_count_push(es0, (strip_txt_of(reqs[i as int]), uv, false)); }
            },
            (None, None) => {
                unresolved.push(key);
                assert(text_views(unresolved@) =~= before_unres.push(strip_txt_of(reqs[i as int])));
            },
        }
        i = i + 1;
    }
    let ghost es = resolved_entries(reqs, ps, ss, requests@.len() as int);
    if raw.len() == 0 {
        return Err(LocaleError::NoneResolved { zone: own(zone) });
    }
    let from_supplemental = raw.len() - from_primary;
    proof { lemma_primary_bound(es, es.len() as int); }
    let primary_wins = from_primary >= from_supplemental;
    let document_root = if primary_wins { own("classic-server-1-1-02-0") } else { own("classic-server-1-1") };
    proof {
        reveal_strlit("classic-server-1-1-02-0");
        reveal_strlit("classic-server-1-1");
        assert(primary_root().len() != supplemental_root().len());
    }
    let mut entries: Vec<LocaleEntry> = Vec::new();
    let mut k: usize = 0;
    while k < raw.len()
        invariant
            k <= raw@.len(),
            raw@.map_values(|e: (String, String, bool)| (e.0@, e.1@, e.2)) == es,
            document_root@ == document_root_of(from_primary as nat, from_supplemental as nat),
            primary_wins == (from_primary >= from_supplemental),
            primary_root() != supplemental_root(),
            entries@.len() == k,
            forall|j: int| 0 <= j < k ==> {
                &&& (#[trigger] entries@[j]).key@ == es[j].0
                &&& entries@[j].text@ == es[j].1
                &&& opt_view(entries@[j].source_root) == entry_root(es[j].2, document_root@)
            },
        decreases raw@.len() - k,
    {
        assert(es[k as int] == (raw@[k as int].0@, raw@[k as int].1@, raw@[k as int].2));
        let from_doc_root = raw[k].2 == primary_wins;
        let source_root = if from_doc_root {
            None
        } else if raw[k].2 {
            Some(own("classic-server-1-1-02-0"))
        } else {
            Some(own("classic-server-1-1"))
        };
        entries.push(LocaleEntry {
            key: own(raw[k].0.as_str()),
            text: own(raw[k].1.as_str()),
            source_root,
        });
        k = k + 1;
    }
    Ok(LocaleResolution {
        entries,
        document_root,
        from_primary,
        from_supplemental,
        mismatched,
        unresolved,
        encodings,
    })
}

proof fn lemma_primary_count_push(es: Seq<(Seq<char>, Seq<char>, bool)>, x: (Seq<char>, Seq<char>, bool))
    ensures
        primary_count(es.push(x), es.len() as int + 1) == primary_count(es, es.len() as int) + if x.2 { 1nat } else { 0nat },
{
    lemma_primary_count_prefix(es.push(x), es, es.len() as int);
}

proof fn lemma_primary_count_prefix(a: Seq<(Seq<char>, Seq<char>, bool)>, b: Seq<(Seq<char>, Seq<char>, bool)>, n: int)
    requires
        0 <= n <= a.len(),
        n <= b.len(),
        forall|j: int| 0 <= j < n ==> a[j] == b[j],
    ensures
        primary_count(a, n) == primary_count(b, n),
    decreases n,
{
    if n > 0 {
        lemma_primary_count_prefix(a, b, n - 1);
    }
}

proof fn lemma_primary_bound(es: Seq<(Seq<char>, Seq<char>, bool)>, n: int)
    requires
        0 <= n,
    ensures
        primary_count(es, n) <= n,
    decreases n,
{
    if n > 0 {
        lemma_primary_bound(es, n - 1);
    }
}

proof fn lemma_label_bound(ps: Seq<Option<Seq<u8>>>, ss: Seq<Option<Seq<u8>>>, n: int)
    requires
        0 <= n,
    ensures
        forall|label: Seq<char>| label_count(ps, ss, label, n) <= 2 * n,
    decreases n,
{
    if n > 0 {
        lemma_label_bound(ps, ss, n - 1);
        assert forall|label: Seq<char>| label_count(ps, ss, label, n) <= 2 * n by {
            assert(label_count(ps, ss, label, n - 1) <= 2 * (n - 1));
        }
    }
}


/// A zone's locale document.
#[derive(Debug)]
pub struct LocaleDocument {
    pub schema_version: u8,
    pub id: String,
    pub language: String,
    /// The tree that supplied more entries.
    pub source_root: String,
    pub source_type: String,
    pub entries: Vec<LocaleEntry>,
    pub source: crate::model::Provenance,
}

/// What the provenance digest of a locale document covers: the requested
/// keys, one per line, as UTF-8.
pub open spec fn closure_bytes(requests: Seq<Seq<char>>) -> Seq<u8> {
    vstd::utf8::encode_utf8(crate::text::join(requests, "\n"@))
}

fn request_parts(requests: &Vec<String>) -> (out: Vec<Vec<char>>)
    ensures
        crate::text::views_of(out@) == text_views(requests@),
{
    let mut out: Vec<Vec<char>> = Vec::new();
    let mut i: usize = 0;
    while i < requests.len()
        invariant
            i <= requests@.len(),
            crate::text::views_of(out@) == text_views(requests@.take(i as int)),
        decreases requests@.len() - i,
    {
        out.push(chars_of(requests[i].as_str()));
        assert(text_views(requests@.take(i + 1)) =~= text_views(requests@.take(i as int)).push(requests@[i as int]@));
        assert(crate::text::views_of(out@) =~= text_views(requests@.take(i + 1)));
        i = i + 1;
    }
    assert(requests@.take(i as int) =~= requests@);
    out
}

/// The locale document of `zone` in `language` from what resolving its
/// requests gave: named `locale.<language>.<zone slug>`, under the tree that
/// supplied more entries, its provenance the digest of the requested keys.
pub fn locale_document(language: &str, zone: &str, requests: &Vec<String>, resolution: LocaleResolution,
    extractor: &str) -> (d: LocaleDocument)
    ensures
        d.schema_version == 1,
        d.id@ == "locale."@ + language@ + "."@ + crate::reference::slug_of(zone@),
        d.language@ == language@,
        d.source_root@ == resolution.document_root@,
        d.source_type@ == "locTxt"@,
        d.entries == resolution.entries,
        d.source.path@ == crate::reference::slug_of(zone@) + " loc_ref closure"@,
        d.source.blake3@ == crate::digest::digest_hex(closure_bytes(text_views(requests@))),
        d.source.extractor@ == extractor@,
        crate::xml::opt_string(d.source.source_root) == Some(resolution.document_root@),
        d.source.prototype_chain is None,
{
    let zone_slug = crate::reference::slug(zone);
    let mut id: Vec<char> = chars_of("locale.");
    crate::text::push_str(&mut id, language);
    crate::text::push_str(&mut id, ".");
    crate::text::push_str(&mut id, zone_slug.as_str());
    let mut path: Vec<char> = chars_of(zone_slug.as_str());
    crate::text::push_str(&mut path, " loc_ref closure");
    let parts = request_parts(requests);
    let newline = chars_of("\n");
    let joined = string_of(crate::text::join_vec(&parts, newline.as_slice()).as_slice());
    let digest = crate::digest::digest_hex_vec(joined.as_str().as_bytes());
    LocaleDocument {
        schema_version: 1,
        id: string_of(id.as_slice()),
        language: string_of(chars_of(language).as_slice()),
        source_root: string_of(chars_of(resolution.document_root.as_str()).as_slice()),
        source_type: string_of(chars_of("locTxt").as_slice()),
        entries: resolution.entries,
        source: crate::model::Provenance {
            path: string_of(path.as_slice()),
            blake3: string_of(digest.as_slice()),
            extractor: string_of(chars_of(extractor).as_slice()),
            source_root: Some(resolution.document_root),
            prototype_chain: None,
        },
    }
}

} // verus!
