//! The stable identity of a quest objective, shared by quest and script
//! extraction: a digest over the quest, the objective kind and either the
//! source counter it advances or its name and targets.

use vstd::prelude::*;
use vstd::utf8::encode_utf8;
use vstd::string::StrSliceExecFns;
use crate::bytes::{le64, push_u64, push_bytes};
use crate::digest::{digest_hex, digest_hex_vec};
use crate::reference::{trim_lead_slash, trim_lead_slash_vec};
use crate::scan::{lex_le, lex_le_exec};
use crate::text::{
    chars_of, string_of, seq_eq, push_str, push_chars, trim, trim_vec, replace_char, replace_char_vec,
    before_first, before_first_vec, lower, lower_vec, views_of,
};

verus! {

/// `value` trimmed, with `\` as `/`, before any `#`, without leading `/`,
/// in ASCII lower case.
pub open spec fn normalized(value: Seq<char>) -> Seq<char> {
    lower(trim_lead_slash(before_first(replace_char(trim(value), '\\', '/'), '#')))
}

/// Normalizes a reference so that spelling noise does not move an identity.
pub fn normalize_ref(value: &str) -> (out: String)
    ensures
        out@ == normalized(value@),
{
    let v = chars_of(value);
    let t = trim_vec(v.as_slice());
    let r = replace_char_vec(t.as_slice(), '\\', '/');
    let b = before_first_vec(r.as_slice(), '#');
    let s = trim_lead_slash_vec(b.as_slice());
    string_of(lower_vec(s.as_slice()).as_slice())
}

/// One hashed component: its UTF-8 length as 64 bits, then its bytes.
pub open spec fn component(v: Seq<char>) -> Seq<u8> {
    le64(encode_utf8(v).len()) + encode_utf8(v)
}

fn push_component(out: &mut Vec<u8>, v: &str)
    ensures
        final(out)@ == old(out)@ + component(v@),
{
    let bytes = v.as_bytes_vec();
    push_u64(out, bytes.len() as u64);
    push_bytes(out, bytes.as_slice());
    assert(final(out)@ =~= old(out)@ + component(v@));
}

/// `s` with `x` added where it sorts, unless `s` holds it already.
pub open spec fn insert_unique(s: Seq<Seq<char>>, x: Seq<char>) -> Seq<Seq<char>>
    decreases s.len(),
{
    if s.len() == 0 {
        seq![x]
    } else if s.last() == x {
        s
    } else if lex_le(s.last(), x) {
        s.push(x)
    } else {
        insert_unique(s.drop_last(), x).push(s.last())
    }
}

/// The distinct values of `s` in ascending order, as a set of strings
/// iterates them.
pub open spec fn sorted_unique(s: Seq<Seq<char>>) -> Seq<Seq<char>>
    decreases s.len(),
{
    if s.len() == 0 { s } else { insert_unique(sorted_unique(s.drop_last()), s.last()) }
}

pub open spec fn components(s: Seq<Seq<char>>) -> Seq<u8>
    decreases s.len(),
{
    if s.len() == 0 { Seq::empty() } else { components(s.drop_last()) + component(s.last()) }
}

pub open spec fn normalized_all(s: Seq<Seq<char>>) -> Seq<Seq<char>> {
    s.map_values(|v: Seq<char>| normalized(v))
}

pub open spec fn str_views(v: Seq<&str>) -> Seq<Seq<char>> {
    v.map_values(|s: &str| s@)
}

/// The bytes the identity digests: a domain tag, the quest and the kind,
/// then the normalized source counter when there is a non-blank one, else
/// the normalized name and the distinct normalized targets in order.
pub open spec fn objective_frame(quest: Seq<char>, kind: Seq<char>, source: Option<Seq<char>>, custom: Option<Seq<char>>,
    targets: Seq<Seq<char>>) -> Seq<u8> {
    component("sarnaut.quest-objective.v1"@) + component(quest) + component(kind) + match source {
        Some(s) if trim(s).len() > 0 => component("source-id"@) + component(normalized(s)),
        _ => component("semantic"@) + component(match custom { Some(c) => normalized(c), None => Seq::empty() })
            + components(sorted_unique(normalized_all(targets))),
    }
}

pub open spec fn objective_id_of(quest: Seq<char>, kind: Seq<char>, source: Option<Seq<char>>, custom: Option<Seq<char>>,
    targets: Seq<Seq<char>>) -> Seq<char> {
    quest + ".objective."@ + digest_hex(objective_frame(quest, kind, source, custom, targets))
}

pub open spec fn opt_str(o: Option<&str>) -> Option<Seq<char>> {
    match o {
        Some(s) => Some(s@),
        None => None,
    }
}

fn insert_unique_vec(s: &mut Vec<Vec<char>>, x: Vec<char>)
    ensures
        views_of(final(s)@) == insert_unique(views_of(old(s)@), x@),
{
    let ghost s0 = views_of(s@);
    let ghost xv = x@;
    let mut j = s.len();
    assert(s0.take(j as int) =~= s0);
    while j > 0 && !seq_eq(s[j - 1].as_slice(), x.as_slice()) && !lex_le_exec(s[j - 1].as_slice(), x.as_slice())
        invariant
            j <= s@.len(),
            s0 == views_of(s@),
            xv == x@,
            insert_unique(s0, xv) == insert_unique(s0.take(j as int), xv) + s0.skip(j as int),
        decreases j,
    {
        assert(s0[j - 1] == s@[j - 1]@);
        assert(s0.take(j as int).last() == s0[j - 1]);
        assert(s0.take(j as int).drop_last() =~= s0.take(j - 1));
        assert(s0.skip(j - 1) =~= seq![s0[j - 1]] + s0.skip(j as int));
        assert(insert_unique(s0.take(j - 1), xv).push(s0[j - 1]) + s0.skip(j as int)
            =~= insert_unique(s0.take(j - 1), xv) + s0.skip(j - 1));
        j = j - 1;
    }
    if j > 0 && seq_eq(s[j - 1].as_slice(), x.as_slice()) {
        proof {
            assert(s0[j - 1] == s@[j - 1]@);
            assert(s0.take(j as int).last() == s0[j - 1]);
            assert(insert_unique(s0.take(j as int), xv) == s0.take(j as int));
            assert(s0.take(j as int) + s0.skip(j as int) =~= s0);
        }
        return;
    }
    proof {
        if j > 0 {
            assert(s0[j - 1] == s@[j - 1]@);
            assert(s0.take(j as int).last() == s0[j - 1]);
            assert(insert_unique(s0.take(j as int), xv) == s0.take(j as int).push(xv));
        } else {
            assert(insert_unique(s0.take(0), xv) == seq![xv]);
        }
    }
    s.insert(j, x);
    assert(views_of(s@) =~= s0.take(j as int).push(xv) + s0.skip(j as int));
}

fn unique_targets(targets: &[&str]) -> (out: Vec<Vec<char>>)
    ensures
        views_of(out@) == sorted_unique(normalized_all(str_views(targets@))),
{
    let ghost tv = normalized_all(str_views(targets@));
    let mut unique: Vec<Vec<char>> = Vec::new();
    let mut i: usize = 0;
    assert(tv.take(0) =~= Seq::<Seq<char>>::empty());
    assert(views_of(unique@) =~= Seq::<Seq<char>>::empty());
    while i < targets.len()
        invariant
            i <= targets@.len(),
            tv == normalized_all(str_views(targets@)),
            views_of(unique@) == sorted_unique(tv.take(i as int)),
        decreases targets@.len() - i,
    {
        assert(tv.take(i + 1).drop_last() =~= tv.take(i as int));
        assert(tv.take(i + 1).last() == normalized(targets@[i as int]@));
        let n = normalize_ref(targets[i]);
        insert_unique_vec(&mut unique, chars_of(n.as_str()));
        i = i + 1;
    }
    assert(tv.take(targets@.len() as int) =~= tv);
    unique
}

fn push_components(frame: &mut Vec<u8>, values: &Vec<Vec<char>>)
    ensures
        final(frame)@ == old(frame)@ + components(views_of(values@)),
{
    let ghost uv = views_of(values@);
    let ghost mid = frame@;
    let mut k: usize = 0;
    assert(uv.take(0) =~= Seq::<Seq<char>>::empty());
    assert(frame@ =~= mid + components(uv.take(0)));
    while k < values.len()
        invariant
            k <= values@.len(),
            uv == views_of(values@),
            mid == old(frame)@,
            frame@ == mid + components(uv.take(k as int)),
        decreases values@.len() - k,
    {
        assert(uv.take(k + 1).drop_last() =~= uv.take(k as int));
        assert(uv.take(k + 1).last() == values@[k as int]@);
        let t = string_of(values[k].as_slice());
        push_component(frame, t.as_str());
        assert(frame@ =~= mid + components(uv.take(k + 1)));
        k = k + 1;
    }
    assert(uv.take(values@.len() as int) =~= uv);
}

fn objective_frame_bytes(quest_id: &str, kind: &str, source_counter_id: Option<&str>, custom_name: Option<&str>,
    targets: &[&str]) -> (frame: Vec<u8>)
    ensures
        frame@ == objective_frame(quest_id@, kind@, opt_str(source_counter_id), opt_str(custom_name), str_views(targets@)),
{
    let mut frame: Vec<u8> = Vec::new();
    push_component(&mut frame, "sarnaut.quest-objective.v1");
    push_component(&mut frame, quest_id);
    push_component(&mut frame, kind);
    let use_source = match source_counter_id {
        Some(s) => trim_vec(chars_of(s).as_slice()).len() > 0,
        None => false,
    };
    match source_counter_id {
        Some(s) if use_source => {
            push_component(&mut frame, "source-id");
            let n = normalize_ref(s);
            push_component(&mut frame, n.as_str());
        },
        _ => {
            push_component(&mut frame, "semantic");
            let name = match custom_name {
                Some(c) => normalize_ref(c),
                None => String::new(),
            };
            push_component(&mut frame, name.as_str());
            let unique = unique_targets(targets);
            push_components(&mut frame, &unique);
        },
    }
    assert(frame@ =~= objective_frame(quest_id@, kind@, opt_str(source_counter_id), opt_str(custom_name), str_views(targets@)));
    frame
}

/// The stable identity of one quest objective: `<quest>.objective.<hex>`.
pub fn derive_objective_id(quest_id: &str, kind: &str, source_counter_id: Option<&str>, custom_name: Option<&str>,
    targets: &[&str]) -> (id: String)
    ensures
        id@ == objective_id_of(quest_id@, kind@, opt_str(source_counter_id), opt_str(custom_name), str_views(targets@)),
{
    let frame = objective_frame_bytes(quest_id, kind, source_counter_id, custom_name, targets);
    let mut out: Vec<char> = Vec::new();
    push_str(&mut out, quest_id);
    push_str(&mut out, ".objective.");
    push_chars(&mut out, digest_hex_vec(frame.as_slice()).as_slice());
    assert(out@ =~= objective_id_of(quest_id@, kind@, opt_str(source_counter_id), opt_str(custom_name), str_views(targets@)));
    string_of(out.as_slice())
}

/// An objective with a source counter is identified by that counter alone:
/// two spellings that normalize alike give one id, whatever names and
/// targets come with them.
pub proof fn lemma_source_counter_decides(quest: Seq<char>, kind: Seq<char>, a: Seq<char>, b: Seq<char>,
    name_a: Option<Seq<char>>, name_b: Option<Seq<char>>, targets_a: Seq<Seq<char>>, targets_b: Seq<Seq<char>>)
    requires
        trim(a).len() > 0,
        trim(b).len() > 0,
        normalized(a) == normalized(b),
    ensures
        objective_id_of(quest, kind, Some(a), name_a, targets_a) == objective_id_of(quest, kind, Some(b), name_b, targets_b),
{
    assert(objective_frame(quest, kind, Some(a), name_a, targets_a) == objective_frame(quest, kind, Some(b), name_b, targets_b));
}

} // verus!
