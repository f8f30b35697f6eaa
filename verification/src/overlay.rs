//! The generated-base-plus-curated-overlay model.
//!
//! The base layer is whatever the extractor wrote. An overlay layer is a
//! directory of patches: an overlay document is merged into the document
//! that already carries its id rather than replacing it. Three properties are
//! enforced here: order comes from the layer manifest and nowhere else; every
//! overlay document states why it exists; and two layers editing the same
//! leaf is a conflict, not a race.

use vstd::prelude::*;
use crate::text::{
    chars_of, string_of, eq_str, seq_eq, copy_chars, push_str, push_chars, split, split_vec,
    views_of, trim, trim_vec, has_prefix, starts_with, lemma_split_nonempty, is_lower, is_digit,
    char_is_lower, char_is_digit,
};
use crate::scan::{lex_le, lex_le_exec, lemma_lex_total, lemma_lex_transitive, lemma_lex_antisym, sort_paths, sorted_paths, text_views};
use crate::text::{join, join_vec};

verus! {

/// A YAML value as the merge sees it. Numbers keep their canonical text, and
/// mapping keys are text; a mapping keeps its insertion order.
#[derive(Debug)]
pub enum Doc {
    Null,
    Bool(bool),
    Number(String),
    Text(String),
    List(Vec<Doc>),
    Mapping(Vec<(String, Doc)>),
}

/// A `Doc` as a mathematical value.
pub enum DocView {
    Null,
    Bool(bool),
    Number(Seq<char>),
    Text(Seq<char>),
    List(Seq<DocView>),
    Mapping(Seq<(Seq<char>, DocView)>),
}

pub open spec fn doc_view(d: Doc) -> DocView
    decreases d,
{
    match d {
        Doc::Null => DocView::Null,
        Doc::Bool(b) => DocView::Bool(b),
        Doc::Number(n) => DocView::Number(n@),
        Doc::Text(t) => DocView::Text(t@),
        Doc::List(xs) => DocView::List(list_view(xs@)),
        Doc::Mapping(xs) => DocView::Mapping(entries_view(xs@)),
    }
}

pub open spec fn list_view(xs: Seq<Doc>) -> Seq<DocView>
    decreases xs,
{
    Seq::new(xs.len(), |i: int| if 0 <= i < xs.len() { doc_view(xs[i]) } else { DocView::Null })
}

pub open spec fn entries_view(xs: Seq<(String, Doc)>) -> Seq<(Seq<char>, DocView)>
    decreases xs,
{
    Seq::new(xs.len(), |i: int| if 0 <= i < xs.len() { (xs[i].0@, doc_view(xs[i].1)) } else { (Seq::empty(), DocView::Null) })
}

/// Equality as YAML values compare: mappings by their entries, whatever
/// their order, each key looked up in the other mapping.
pub open spec fn same_view(a: DocView, b: DocView) -> bool
    decreases a,
{
    match a {
        DocView::Null => b is Null,
        DocView::Bool(x) => b matches DocView::Bool(y) && x == y,
        DocView::Number(x) => b matches DocView::Number(y) && x == y,
        DocView::Text(x) => b matches DocView::Text(y) && x == y,
        DocView::List(xs) => b matches DocView::List(ys) && xs.len() == ys.len()
            && forall|i: int| 0 <= i < xs.len() ==> same_view(#[trigger] xs[i], ys[i]),
        DocView::Mapping(xs) => b matches DocView::Mapping(ys) && xs.len() == ys.len()
            && forall|i: int| #![trigger xs[i]] 0 <= i < xs.len() ==> match key_index(ys, xs[i].0) {
                Some(j) => same_view(xs[i].1, ys[j].1),
                None => false,
            },
    }
}

/// The position of the first entry with key `k`, from `from` on.
pub open spec fn key_index_from(es: Seq<(Seq<char>, DocView)>, k: Seq<char>, from: int) -> Option<int>
    decreases es.len() - from,
{
    if from < 0 || from >= es.len() {
        None
    } else if es[from].0 == k {
        Some(from)
    } else {
        key_index_from(es, k, from + 1)
    }
}

pub open spec fn key_index(es: Seq<(Seq<char>, DocView)>, k: Seq<char>) -> Option<int> {
    key_index_from(es, k, 0)
}

/// The value under key `k` of a mapping; `None` for anything else.
pub open spec fn lookup(v: DocView, k: Seq<char>) -> Option<DocView> {
    match v {
        DocView::Mapping(es) => match key_index(es, k) {
            Some(i) => Some(es[i].1),
            None => None,
        },
        _ => None,
    }
}

/// The text under key `k`, when it is text.
pub open spec fn text_at(v: DocView, k: Seq<char>) -> Option<Seq<char>> {
    match lookup(v, k) {
        Some(DocView::Text(t)) => Some(t),
        _ => None,
    }
}

/// The value with every `_op` key removed, at every depth.
pub open spec fn strip_view(v: DocView) -> DocView
    decreases v, 1nat,
{
    match v {
        DocView::Mapping(es) => DocView::Mapping(strip_entries(es)),
        DocView::List(xs) => DocView::List(strip_list(xs)),
        _ => v,
    }
}

pub open spec fn strip_entries(es: Seq<(Seq<char>, DocView)>) -> Seq<(Seq<char>, DocView)>
    decreases es, 0nat,
{
    if es.len() == 0 {
        es
    } else if es.last().0 == "_op"@ {
        strip_entries(es.drop_last())
    } else {
        strip_entries(es.drop_last()).push((es.last().0, strip_view(es.last().1)))
    }
}

pub open spec fn strip_list(xs: Seq<DocView>) -> Seq<DocView>
    decreases xs, 0nat,
{
    if xs.len() == 0 {
        xs
    } else {
        strip_list(xs.drop_last()).push(strip_view(xs.last()))
    }
}

/// Patch metadata keys: `_op` at every depth, `curation_note` and `_delete`
/// only at the top level.
pub open spec fn reserved(name: Seq<char>, path: Seq<char>) -> bool {
    name == "_op"@ || (path.len() == 0 && (name == "curation_note"@ || name == "_delete"@))
}

/// The dotted path of child `name` under `path`.
pub open spec fn child_path(path: Seq<char>, name: Seq<char>) -> Seq<char> {
    if path.len() == 0 { name } else { path + "."@ + name }
}

/// `base` merged with `patch` at `path`, and the leaf paths whose value
/// changed, in the order they were written. Mappings merge key by key
/// (unless the patch says `_op: replace`); anything else, sequences included,
/// replaces wholesale with the `_op` keys stripped.
pub open spec fn merge_view(base: DocView, patch: DocView, path: Seq<char>) -> (DocView, Seq<Seq<char>>)
    decreases patch,
{
    match patch {
        DocView::Mapping(pe) => {
            if text_at(patch, "_op"@) == Some("replace"@) {
                let rep = strip_view(patch);
                (rep, if same_view(base, rep) { Seq::<Seq<char>>::empty() } else { seq![path] })
            } else {
                let start = match base {
                    DocView::Mapping(be) => be,
                    _ => Seq::<(Seq<char>, DocView)>::empty(),
                };
                let r = merge_entries(start, pe, path);
                (DocView::Mapping(r.0), r.1)
            }
        },
        _ => {
            let rep = strip_view(patch);
            (rep, if same_view(base, rep) { Seq::<Seq<char>>::empty() } else { seq![path] })
        },
    }
}

/// The entries of `target` after the entries of `pe` are merged into it in
/// order, and the leaf writes they made.
pub open spec fn merge_entries(target: Seq<(Seq<char>, DocView)>, pe: Seq<(Seq<char>, DocView)>, path: Seq<char>)
    -> (Seq<(Seq<char>, DocView)>, Seq<Seq<char>>)
    decreases pe,
{
    if pe.len() == 0 {
        (target, Seq::<Seq<char>>::empty())
    } else {
        let prev = merge_entries(target, pe.drop_last(), path);
        let name = pe.last().0;
        let value = pe.last().1;
        if reserved(name, path) {
            prev
        } else {
            match key_index(prev.0, name) {
                Some(k) => {
                    let m = merge_view(prev.0[k].1, value, child_path(path, name));
                    (prev.0.update(k, (name, m.0)), prev.1 + m.1)
                },
                None => {
                    let m = merge_view(DocView::Null, value, child_path(path, name));
                    (prev.0.push((name, m.0)), prev.1 + m.1)
                },
            }
        }
    }
}

proof fn lemma_key_index_from(es: Seq<(Seq<char>, DocView)>, k: Seq<char>, from: int)
    requires
        0 <= from,
    ensures
        key_index_from(es, k, from) matches Some(i) ==> from <= i < es.len() && es[i].0 == k
            && forall|j: int| from <= j < i ==> es[j].0 != k,
        key_index_from(es, k, from) is None ==> forall|j: int| from <= j < es.len() ==> es[j].0 != k,
    decreases es.len() - from,
{
    if from < es.len() && es[from].0 != k {
        lemma_key_index_from(es, k, from + 1);
    }
}

/// The position of the first entry with key `k`.
fn find_key(es: &Vec<(String, Doc)>, k: &[char]) -> (r: Option<usize>)
    ensures
        match r {
            Some(i) => key_index(entries_view(es@), k@) == Some(i as int),
            None => key_index(entries_view(es@), k@) is None,
        },
{
    let ghost ev = entries_view(es@);
    let mut i: usize = 0;
    while i < es.len()
        invariant
            i <= es@.len(),
            ev == entries_view(es@),
            key_index_from(ev, k@, i as int) == key_index(ev, k@),
        decreases es@.len() - i,
    {
        assert(ev[i as int].0 == es@[i as int].0@);
        if eq_str(k, es[i].0.as_str()) {
            return Some(i);
        }
        i = i + 1;
    }
    None
}

/// Whether two values are equal as YAML values.
pub fn same_doc(a: &Doc, b: &Doc) -> (r: bool)
    ensures
        r == same_view(doc_view(*a), doc_view(*b)),
    decreases a,
{
    match a {
        Doc::Null => match b {
            Doc::Null => true,
            _ => {
                assert(!same_view(doc_view(*a), doc_view(*b)));
                false
            },
        },
        Doc::Bool(x) => match b {
            Doc::Bool(y) => *x == *y,
            _ => {
                assert(!same_view(doc_view(*a), doc_view(*b)));
                false
            },
        },
        Doc::Number(x) => match b {
            Doc::Number(y) => eq_str(chars_of(x.as_str()).as_slice(), y.as_str()),
            _ => {
                assert(!same_view(doc_view(*a), doc_view(*b)));
                false
            },
        },
        Doc::Text(x) => match b {
            Doc::Text(y) => eq_str(chars_of(x.as_str()).as_slice(), y.as_str()),
            _ => {
                assert(!same_view(doc_view(*a), doc_view(*b)));
                false
            },
        },
        Doc::List(xs) => match b {
            Doc::List(ys) => {
                if xs.len() != ys.len() {
                    return false;
                }
                let ghost xv = list_view(xs@);
                let ghost yv = list_view(ys@);
                assert(doc_view(*a) == DocView::List(xv));
                assert(doc_view(*b) == DocView::List(yv));
                let mut i: usize = 0;
                while i < xs.len()
                    invariant
                        i <= xs@.len(),
                        xs@.len() == ys@.len(),
                        xv == list_view(xs@),
                        yv == list_view(ys@),
                        *a == Doc::List(*xs),
                        doc_view(*a) == DocView::List(xv),
                        doc_view(*b) == DocView::List(yv),
                        forall|k: int| 0 <= k < i ==> same_view(#[trigger] xv[k], yv[k]),
                    decreases xs@.len() - i,
                {
                    proof {
                        assert(decreases_to!(*a => *xs));
                        vstd::std_specs::vec::axiom_vec_index_decreases(*xs, i as int);
                    }
                    if !same_doc(&xs[i], &ys[i]) {
                        assert(!same_view(xv[i as int], yv[i as int]));
                        assert(!same_view(DocView::List(xv), DocView::List(yv))) by {
                            reveal_with_fuel(same_view, 2);
                        }
                        return false;
                    }
                    i = i + 1;
                }
                assert(same_view(DocView::List(xv), DocView::List(yv)));
                true
            },
            _ => {
                assert(!same_view(doc_view(*a), doc_view(*b)));
                false
            },
        },
        Doc::Mapping(xs) => match b {
            Doc::Mapping(ys) => {
                if xs.len() != ys.len() {
                    return false;
                }
                let ghost xv = entries_view(xs@);
                let ghost yv = entries_view(ys@);
                assert(doc_view(*a) == DocView::Mapping(xv));
                assert(doc_view(*b) == DocView::Mapping(yv));
                let mut i: usize = 0;
                while i < xs.len()
                    invariant
                        i <= xs@.len(),
                        xs@.len() == ys@.len(),
                        xv == entries_view(xs@),
                        yv == entries_view(ys@),
                        *a == Doc::Mapping(*xs),
                        doc_view(*a) == DocView::Mapping(xv),
                        doc_view(*b) == DocView::Mapping(yv),
                        forall|k: int| #![trigger xv[k]] 0 <= k < i ==> match key_index(yv, xv[k].0) {
                            Some(j) => same_view(xv[k].1, yv[j].1),
                            None => false,
                        },
                    decreases xs@.len() - i,
                {
                    proof {
                        assert(decreases_to!(*a => *xs));
                        vstd::std_specs::vec::axiom_vec_index_decreases(*xs, i as int);
                        assert(decreases_to!(xs@[i as int] => xs@[i as int].1));
                    }
                    assert(xv[i as int] == (xs@[i as int].0@, doc_view(xs@[i as int].1)));
                    let key = chars_of(xs[i].0.as_str());
                    let found = find_key(ys, key.as_slice());
                    proof { lemma_key_index_from(yv, xv[i as int].0, 0); }
                    match found {
                        Some(j) => {
                            assert(yv[j as int] == (ys@[j as int].0@, doc_view(ys@[j as int].1)));
                            if !same_doc(&xs[i].1, &ys[j].1) {
                                assert(!same_view(DocView::Mapping(xv), DocView::Mapping(yv)));
                                return false;
                            }
                        },
                        None => {
                            assert(!same_view(DocView::Mapping(xv), DocView::Mapping(yv)));
                            return false;
                        },
                    }
                    i = i + 1;
                }
                assert(same_view(DocView::Mapping(xv), DocView::Mapping(yv)));
                true
            },
            _ => {
                assert(!same_view(doc_view(*a), doc_view(*b)));
                false
            },
        },
    }
}

fn copy_text(s: &String) -> (out: String)
    ensures
        out@ == s@,
{
    string_of(chars_of(s.as_str()).as_slice())
}

/// A copy of `v`, with `_op` keys removed at every depth when `strip` is set.
pub(crate) fn copy_doc(v: &Doc, strip: bool) -> (out: Doc)
    ensures
        strip ==> doc_view(out) == strip_view(doc_view(*v)),
        !strip ==> doc_view(out) == doc_view(*v),
    decreases v,
{
    match v {
        Doc::Null => Doc::Null,
        Doc::Bool(b) => Doc::Bool(*b),
        Doc::Number(n) => Doc::Number(copy_text(n)),
        Doc::Text(t) => Doc::Text(copy_text(t)),
        Doc::List(xs) => {
            let ghost xv = list_view(xs@);
            let mut out: Vec<Doc> = Vec::new();
            let mut i: usize = 0;
            assert(xv.take(0) =~= Seq::<DocView>::empty());
            while i < xs.len()
                invariant
                    i <= xs@.len(),
                    xv == list_view(xs@),
                    *v == Doc::List(*xs),
                    strip ==> list_view(out@) == strip_list(xv.take(i as int)),
                    !strip ==> list_view(out@) == xv.take(i as int),
                decreases xs@.len() - i,
            {
                proof {
                    assert((*v)->List_0 == *xs);
                    assert(decreases_to!(*v => *xs));
                    vstd::std_specs::vec::axiom_vec_index_decreases(*xs, i as int);
                }
                let item = copy_doc(&xs[i], strip);
                let ghost before = list_view(out@);
                out.push(item);
                assert(list_view(out@) =~= before.push(doc_view(item)));
                assert(xv.take(i + 1).drop_last() =~= xv.take(i as int));
                assert(xv.take(i + 1).last() == doc_view(xs@[i as int]));
                proof {
                    if !strip {
                        assert(xv.take(i + 1) =~= xv.take(i as int).push(doc_view(xs@[i as int])));
                    }
                }
                i = i + 1;
            }
            assert(xv.take(xs@.len() as int) =~= xv);
            Doc::List(out)
        },
        Doc::Mapping(xs) => {
            let ghost xv = entries_view(xs@);
            let mut out: Vec<(String, Doc)> = Vec::new();
            let mut i: usize = 0;
            assert(xv.take(0) =~= Seq::<(Seq<char>, DocView)>::empty());
            while i < xs.len()
                invariant
                    i <= xs@.len(),
                    xv == entries_view(xs@),
                    *v == Doc::Mapping(*xs),
                    strip ==> entries_view(out@) == strip_entries(xv.take(i as int)),
                    !strip ==> entries_view(out@) == xv.take(i as int),
                decreases xs@.len() - i,
            {
                proof {
                    assert((*v)->Mapping_0 == *xs);
                    assert(decreases_to!(*v => *xs));
                    vstd::std_specs::vec::axiom_vec_index_decreases(*xs, i as int);
                    assert(decreases_to!(xs@[i as int] => xs@[i as int].1));
                }
                assert(xv.take(i + 1).drop_last() =~= xv.take(i as int));
                assert(xv.take(i + 1).last() == (xs@[i as int].0@, doc_view(xs@[i as int].1)));
                let is_op = eq_str(chars_of(xs[i].0.as_str()).as_slice(), "_op");
                if !(strip && is_op) {
                    let item = copy_doc(&xs[i].1, strip);
                    let key = copy_text(&xs[i].0);
                    let ghost before = entries_view(out@);
                    out.push((key, item));
                    assert(entries_view(out@) =~= before.push((key@, doc_view(item))));
                    proof {
                        if !strip {
                            assert(xv.take(i + 1) =~= xv.take(i as int).push(xv[i as int]));
                        }
                    }
                }
                i = i + 1;
            }
            assert(xv.take(xs@.len() as int) =~= xv);
            Doc::Mapping(out)
        },
    }
}

/// The text under `key` of a mapping, when it is text.
fn text_value(v: &Doc, key: &str) -> (out: Option<String>)
    ensures
        match out {
            Some(t) => text_at(doc_view(*v), key@) == Some(t@),
            None => text_at(doc_view(*v), key@) is None,
        },
{
    match v {
        Doc::Mapping(xs) => {
            let k = chars_of(key);
            match find_key(xs, k.as_slice()) {
                Some(i) => {
                    proof { lemma_key_index_from(entries_view(xs@), key@, 0); }
                    assert(entries_view(xs@)[i as int] == (xs@[i as int].0@, doc_view(xs@[i as int].1)));
                    match &xs[i].1 {
                        Doc::Text(t) => Some(copy_text(t)),
                        _ => None,
                    }
                },
                None => None,
            }
        },
        _ => None,
    }
}

fn is_replace(patch: &Doc) -> (r: bool)
    ensures
        r == (text_at(doc_view(*patch), "_op"@) == Some("replace"@)),
{
    match text_value(patch, "_op") {
        Some(t) => eq_str(chars_of(t.as_str()).as_slice(), "replace"),
        None => false,
    }
}

fn is_reserved(name: &[char], path: &[char]) -> (r: bool)
    ensures
        r == reserved(name@, path@),
{
    eq_str(name, "_op") || (path.len() == 0 && (eq_str(name, "curation_note") || eq_str(name, "_delete")))
}

fn child_path_exec(path: &[char], name: &[char]) -> (out: Vec<char>)
    ensures
        out@ == child_path(path@, name@),
{
    if path.len() == 0 {
        copy_chars(name)
    } else {
        let mut out = copy_chars(path);
        out.push('.');
        push_chars(&mut out, name);
        proof { reveal_strlit("."); }
        assert(out@ =~= path@ + "."@ + name@);
        out
    }
}

fn append_paths(into: &mut Vec<Vec<char>>, more: Vec<Vec<char>>)
    ensures
        views_of(final(into)@) == views_of(old(into)@) + views_of(more@),
{
    let ghost start = views_of(into@);
    let mut i: usize = 0;
    while i < more.len()
        invariant
            i <= more@.len(),
            start == views_of(old(into)@),
            views_of(into@) == start + views_of(more@).take(i as int),
        decreases more@.len() - i,
    {
        let ghost before = views_of(into@);
        let p = copy_chars(more[i].as_slice());
        into.push(p);
        assert(views_of(into@) =~= before.push(p@));
        assert(views_of(into@) =~= start + views_of(more@).take(i + 1));
        i = i + 1;
    }
    assert(views_of(more@).take(more@.len() as int) =~= views_of(more@));
}

/// Merges `patch` into `base` at the dotted `path`, returning the merged
/// value and the paths of the leaves whose value changed.
pub fn merge_into(base: Doc, patch: &Doc, path: &[char]) -> (out: (Doc, Vec<Vec<char>>))
    ensures
        (doc_view(out.0), views_of(out.1@)) == merge_view(doc_view(base), doc_view(*patch), path@),
    decreases patch,
{
    let replace = is_replace(patch);
    if !replace {
        match patch {
            Doc::Mapping(pe) => {
                let ghost pv = entries_view(pe@);
                let mut target: Vec<(String, Doc)> = match base {
                    Doc::Mapping(be) => be,
                    _ => Vec::new(),
                };
                let ghost start = entries_view(target@);
                assert(start == match doc_view(base) {
                    DocView::Mapping(be) => be,
                    _ => Seq::<(Seq<char>, DocView)>::empty(),
                });
                let mut writes: Vec<Vec<char>> = Vec::new();
                let mut i: usize = 0;
                assert(pv.take(0) =~= Seq::<(Seq<char>, DocView)>::empty());
                assert(views_of(writes@) =~= Seq::<Seq<char>>::empty());
                while i < pe.len()
                    invariant
                        i <= pe@.len(),
                        pv == entries_view(pe@),
                        *patch == Doc::Mapping(*pe),
                        (entries_view(target@), views_of(writes@)) == merge_entries(start, pv.take(i as int), path@),
                    decreases pe@.len() - i,
                {
                    proof {
                        assert((*patch)->Mapping_0 == *pe);
                        assert(decreases_to!(*patch => *pe));
                        vstd::std_specs::vec::axiom_vec_index_decreases(*pe, i as int);
                        assert(decreases_to!(pe@[i as int] => pe@[i as int].1));
                    }
                    assert(pv.take(i + 1).drop_last() =~= pv.take(i as int));
                    assert(pv.take(i + 1).last() == (pe@[i as int].0@, doc_view(pe@[i as int].1)));
                    let name = chars_of(pe[i].0.as_str());
                    if !is_reserved(name.as_slice(), path) {
                        let child = child_path_exec(path, name.as_slice());
                        let ghost prev_target = entries_view(target@);
                        let ghost prev_writes = views_of(writes@);
                        match find_key(&target, name.as_slice()) {
                            Some(k) => {
                                proof { lemma_key_index_from(prev_target, name@, 0); }
                                let (kname, slot) = target.remove(k);
                                assert(prev_target[k as int] == (kname@, doc_view(slot)));
                                let (m, w) = merge_into(slot, &pe[i].1, child.as_slice());
                                target.insert(k, (kname, m));
                                assert(entries_view(target@) =~= prev_target.update(k as int, (name@, doc_view(m))));
                                append_paths(&mut writes, w);
                            },
                            None => {
                                let (m, w) = merge_into(Doc::Null, &pe[i].1, child.as_slice());
                                let key = copy_text(&pe[i].0);
                                target.push((key, m));
                                assert(entries_view(target@) =~= prev_target.push((name@, doc_view(m))));
                                append_paths(&mut writes, w);
                            },
                        }
                    }
                    i = i + 1;
                }
                assert(pv.take(pe@.len() as int) =~= pv);
                let merged = Doc::Mapping(target);
                assert(doc_view(merged) == DocView::Mapping(entries_view(target@)));
                return (merged, writes);
            },
            _ => {},
        }
    }
    let rep = copy_doc(patch, true);
    let changed = !same_doc(&base, &rep);
    let mut writes: Vec<Vec<char>> = Vec::new();
    if changed {
        writes.push(copy_chars(path));
    }
    assert(views_of(writes@) =~= if changed { seq![path@] } else { Seq::<Seq<char>>::empty() });
    (rep, writes)
}

// ----- deletions ------------------------------------------------------------

/// `es` without entry `k`, the last entry taking its place.
pub open spec fn swap_removed(es: Seq<(Seq<char>, DocView)>, k: int) -> Seq<(Seq<char>, DocView)> {
    es.update(k, es.last()).drop_last()
}

/// `v` with key `last` removed from the mapping that `segs` leads to through
/// nested mappings; unchanged where the path does not exist.
pub open spec fn delete_at(v: DocView, segs: Seq<Seq<char>>, last: Seq<char>) -> DocView
    decreases segs.len(),
{
    match v {
        DocView::Mapping(es) => if segs.len() == 0 {
            match key_index(es, last) {
                Some(k) => DocView::Mapping(swap_removed(es, k)),
                None => v,
            }
        } else {
            match key_index(es, segs[0]) {
                Some(k) => DocView::Mapping(es.update(k, (es[k].0, delete_at(es[k].1, segs.drop_first(), last)))),
                None => v,
            }
        },
        _ => v,
    }
}

/// `v` after each dotted path of `paths` is deleted, in order.
pub open spec fn apply_deletions_view(v: DocView, paths: Seq<Seq<char>>) -> DocView
    decreases paths.len(),
{
    if paths.len() == 0 {
        v
    } else {
        let segs = split(paths.last(), '.');
        delete_at(apply_deletions_view(v, paths.drop_last()), segs.drop_last(), segs.last())
    }
}

fn delete_path(v: Doc, segs: &Vec<Vec<char>>, from: usize, last: &[char]) -> (out: Doc)
    requires
        from <= segs@.len(),
    ensures
        doc_view(out) == delete_at(doc_view(v), views_of(segs@).skip(from as int), last@),
    decreases segs@.len() - from,
{
    let ghost rest = views_of(segs@).skip(from as int);
    match v {
        Doc::Mapping(es) => {
            let mut es = es;
            let ghost ev = entries_view(es@);
            if from == segs.len() {
                match find_key(&es, last) {
                    Some(k) => {
                        proof { lemma_key_index_from(ev, last@, 0); }
                        let _removed = es.swap_remove(k);
                        assert(entries_view(es@) =~= swap_removed(ev, k as int));
                        Doc::Mapping(es)
                    },
                    None => Doc::Mapping(es),
                }
            } else {
                assert(rest[0] == segs@[from as int]@);
                match find_key(&es, segs[from].as_slice()) {
                    Some(k) => {
                        proof { lemma_key_index_from(ev, rest[0], 0); }
                        let (name, child) = es.remove(k);
                        assert(ev[k as int] == (name@, doc_view(child)));
                        let inner = delete_path(child, segs, from + 1, last);
                        assert(views_of(segs@).skip(from + 1) =~= rest.drop_first());
                        es.insert(k, (name, inner));
                        assert(entries_view(es@) =~= ev.update(k as int, (ev[k as int].0, doc_view(inner))));
                        Doc::Mapping(es)
                    },
                    None => Doc::Mapping(es),
                }
            }
        },
        other => other,
    }
}

/// Applies a document's `_delete` list after the merge, so a patch can
/// remove an inherited key rather than only overwrite it.
pub fn apply_deletions(value: Doc, paths: &Vec<Vec<char>>) -> (out: Doc)
    ensures
        doc_view(out) == apply_deletions_view(doc_view(value), views_of(paths@)),
{
    let ghost pv = views_of(paths@);
    let ghost start = doc_view(value);
    let mut current = value;
    let mut i: usize = 0;
    assert(pv.take(0) =~= Seq::<Seq<char>>::empty());
    while i < paths.len()
        invariant
            i <= paths@.len(),
            pv == views_of(paths@),
            doc_view(current) == apply_deletions_view(start, pv.take(i as int)),
        decreases paths@.len() - i,
    {
        assert(pv.take(i + 1).drop_last() =~= pv.take(i as int));
        assert(pv.take(i + 1).last() == paths@[i as int]@);
        let segs = split_vec(paths[i].as_slice(), '.');
        proof { lemma_split_nonempty(paths@[i as int]@, '.'); }
        assert(views_of(segs@) =~= split(paths@[i as int]@, '.'));
        let n = segs.len();
        let last = copy_chars(segs[n - 1].as_slice());
        let mut init = segs;
        let ghost all = views_of(init@);
        init.pop();
        assert(views_of(init@) =~= all.drop_last());
        assert(views_of(init@).skip(0) =~= all.drop_last());
        current = delete_path(current, &init, 0, last.as_slice());
        i = i + 1;
    }
    assert(pv.take(paths@.len() as int) =~= pv);
    current
}

// ----- leaf ownership and conflicts -------------------------------------------

/// Two layers writing the same leaf of the same document.
#[derive(Clone, Debug)]
pub struct Conflict {
    pub document_id: String,
    pub path: String,
    pub first_layer: String,
    pub second_layer: String,
}

pub open spec fn conflict_text(c: Conflict) -> Seq<char> {
    "document "@ + c.document_id@ + ": layers "@ + c.first_layer@ + " and "@ + c.second_layer@
        + " both write "@ + c.path@
}

impl Conflict {
    pub fn describe(&self) -> (r: String)
        ensures
            r@ == conflict_text(*self),
    {
        let mut out: Vec<char> = Vec::new();
        push_str(&mut out, "document ");
        push_str(&mut out, self.document_id.as_str());
        push_str(&mut out, ": layers ");
        push_str(&mut out, self.first_layer.as_str());
        push_str(&mut out, " and ");
        push_str(&mut out, self.second_layer.as_str());
        push_str(&mut out, " both write ");
        push_str(&mut out, self.path.as_str());
        assert(out@ =~= conflict_text(*self));
        string_of(out.as_slice())
    }
}

pub open spec fn conflict_views(v: Seq<Conflict>) -> Seq<(Seq<char>, Seq<char>, Seq<char>, Seq<char>)> {
    v.map_values(|c: Conflict| (c.document_id@, c.path@, c.first_layer@, c.second_layer@))
}

pub open spec fn leaf_views(v: Seq<(String, String)>) -> Seq<(Seq<char>, Seq<char>)> {
    v.map_values(|e: (String, String)| (e.0@, e.1@))
}

pub open spec fn lex_lt(a: Seq<char>, b: Seq<char>) -> bool {
    lex_le(a, b) && a != b
}

/// Leaf paths in strictly ascending order, as a `BTreeMap` walks them.
pub open spec fn leaves_sorted(ls: Seq<(Seq<char>, Seq<char>)>) -> bool {
    forall|a: int, b: int| 0 <= a < b < ls.len() ==> lex_lt(#[trigger] ls[a].0, #[trigger] ls[b].0)
}

/// The layer that last wrote `path`.
pub open spec fn owner_of(ls: Seq<(Seq<char>, Seq<char>)>, path: Seq<char>) -> Option<Seq<char>> {
    if exists|i: int| 0 <= i < ls.len() && (#[trigger] ls[i]).0 == path {
        Some(ls[choose|i: int| 0 <= i < ls.len() && (#[trigger] ls[i]).0 == path].1)
    } else {
        None
    }
}

/// The first position whose path does not sort before `path`, from `i` on.
pub open spec fn lower_bound_from(ls: Seq<(Seq<char>, Seq<char>)>, path: Seq<char>, i: int) -> int
    decreases ls.len() - i,
{
    if i < 0 || i >= ls.len() || !lex_lt(ls[i].0, path) {
        i
    } else {
        lower_bound_from(ls, path, i + 1)
    }
}

/// The leaves after `layer` writes `path`: the entry for `path` is
/// overwritten, or inserted where it sorts.
pub open spec fn set_leaf(ls: Seq<(Seq<char>, Seq<char>)>, path: Seq<char>, layer: Seq<char>) -> Seq<(Seq<char>, Seq<char>)> {
    let j = lower_bound_from(ls, path, 0);
    if 0 <= j < ls.len() && ls[j].0 == path {
        ls.update(j, (path, layer))
    } else {
        ls.insert(j, (path, layer))
    }
}

/// Whether a write at `path` touches a leaf recorded at `existing`: the same
/// leaf, or one inside the other.
pub open spec fn overlapping(existing: Seq<char>, path: Seq<char>) -> bool {
    existing == path || has_prefix(existing, path + "."@) || has_prefix(path, existing + "."@)
}

/// The conflicts a write by `layer` at `path` raises against the recorded
/// leaves, in leaf order.
pub open spec fn conflicts_for(ls: Seq<(Seq<char>, Seq<char>)>, path: Seq<char>, layer: Seq<char>, doc: Seq<char>)
    -> Seq<(Seq<char>, Seq<char>, Seq<char>, Seq<char>)>
    decreases ls.len(),
{
    if ls.len() == 0 {
        Seq::empty()
    } else {
        conflicts_for(ls.drop_last(), path, layer, doc) + if ls.last().1 != layer && overlapping(ls.last().0, path) {
            seq![(doc, path, ls.last().1, layer)]
        } else {
            Seq::empty()
        }
    }
}

/// A write by `layer` at `path` conflicts with every leaf another layer
/// recorded at the same path, at a path inside it, or at a path it lies
/// inside: each such leaf raises a conflict naming that leaf's layer first
/// and `layer` second. Every conflict raised is of that kind.
pub proof fn lemma_overlapping_writes_conflict(ls: Seq<(Seq<char>, Seq<char>)>, path: Seq<char>, layer: Seq<char>, doc: Seq<char>)
    ensures
        forall|i: int| 0 <= i < ls.len() && (#[trigger] ls[i]).1 != layer
            && (ls[i].0 == path || has_prefix(ls[i].0, path + "."@) || has_prefix(path, ls[i].0 + "."@))
            ==> conflicts_for(ls, path, layer, doc).contains((doc, path, ls[i].1, layer)),
        forall|k: int| 0 <= k < conflicts_for(ls, path, layer, doc).len() ==> {
            let c = #[trigger] conflicts_for(ls, path, layer, doc)[k];
            &&& c.0 == doc && c.1 == path && c.3 == layer && c.2 != layer
        },
    decreases ls.len(),
{
    if ls.len() > 0 {
        let init = ls.drop_last();
        lemma_overlapping_writes_conflict(init, path, layer, doc);
        let before = conflicts_for(init, path, layer, doc);
        let all = conflicts_for(ls, path, layer, doc);
        assert forall|i: int| 0 <= i < ls.len() && (#[trigger] ls[i]).1 != layer
            && (ls[i].0 == path || has_prefix(ls[i].0, path + "."@) || has_prefix(path, ls[i].0 + "."@))
            implies all.contains((doc, path, ls[i].1, layer)) by {
            if i < ls.len() - 1 {
                assert(init[i] == ls[i]);
                let k = choose|k: int| 0 <= k < before.len() && before[k] == (doc, path, ls[i].1, layer);
                assert(all[k] == before[k]);
            } else {
                assert(overlapping(ls.last().0, path));
                assert(all[before.len() as int] == (doc, path, ls[i].1, layer));
            }
        }
        assert forall|k: int| 0 <= k < all.len() implies {
            let c = #[trigger] all[k];
            &&& c.0 == doc && c.1 == path && c.3 == layer && c.2 != layer
        } by {
            if k < before.len() {
                assert(all[k] == before[k]);
            }
        }
    }
}

proof fn lemma_lt_trans(a: Seq<char>, b: Seq<char>, c: Seq<char>)
    requires
        lex_lt(a, b),
        lex_lt(b, c),
    ensures
        lex_lt(a, c),
{
    lemma_lex_transitive(a, b, c);
    if a == c {
        lemma_lex_antisym(a, b);
    }
}

fn overlaps(existing: &[char], path: &[char]) -> (r: bool)
    ensures
        r == overlapping(existing@, path@),
{
    if crate::text::seq_eq(existing, path) {
        return true;
    }
    let mut p = copy_chars(path);
    p.push('.');
    let mut e = copy_chars(existing);
    e.push('.');
    proof { reveal_strlit("."); }
    assert(p@ =~= path@ + "."@);
    assert(e@ =~= existing@ + "."@);
    starts_with(existing, p.as_slice()) || starts_with(path, e.as_slice())
}

/// Records that `layer` wrote `path`, raising a conflict against every
/// overlapping leaf another layer wrote.
pub fn record_leaf(path: &[char], layer: &str, leaves: &mut Vec<(String, String)>, conflicts: &mut Vec<Conflict>, document_id: &str)
    requires
        leaves_sorted(leaf_views(old(leaves)@)),
    ensures
        conflict_views(final(conflicts)@) == conflict_views(old(conflicts)@)
            + conflicts_for(leaf_views(old(leaves)@), path@, layer@, document_id@),
        leaves_sorted(leaf_views(final(leaves)@)),
        leaf_views(final(leaves)@) == set_leaf(leaf_views(old(leaves)@), path@, layer@),
        forall|p: Seq<char>| owner_of(leaf_views(final(leaves)@), p)
            == if p == path@ { Some(layer@) } else { owner_of(leaf_views(old(leaves)@), p) },
{
    let ghost lv = leaf_views(leaves@);
    let ghost start = conflict_views(conflicts@);
    let layer_chars = chars_of(layer);
    let mut i: usize = 0;
    assert(lv.take(0) =~= Seq::<(Seq<char>, Seq<char>)>::empty());
    while i < leaves.len()
        invariant
            i <= leaves@.len(),
            lv == leaf_views(leaves@),
            layer_chars@ == layer@,
            start == conflict_views(old(conflicts)@),
            conflict_views(conflicts@) == start + conflicts_for(lv.take(i as int), path@, layer@, document_id@),
        decreases leaves@.len() - i,
    {
        assert(lv.take(i + 1).drop_last() =~= lv.take(i as int));
        assert(lv.take(i + 1).last() == (leaves@[i as int].0@, leaves@[i as int].1@));
        let existing = chars_of(leaves[i].0.as_str());
        let owner = &leaves[i].1;
        let ghost before = conflict_views(conflicts@);
        if !eq_str(layer_chars.as_slice(), owner.as_str()) && overlaps(existing.as_slice(), path) {
            let c = Conflict {
                document_id: string_of(chars_of(document_id).as_slice()),
                path: string_of(path),
                first_layer: owner.clone(),
                second_layer: string_of(layer_chars.as_slice()),
            };
            conflicts.push(c);
            assert(conflict_views(conflicts@) =~= before.push((document_id@, path@, owner@, layer@)));
        } else {
            assert(conflict_views(conflicts@) =~= before + Seq::empty());
        }
        assert(conflict_views(conflicts@) =~= start + conflicts_for(lv.take(i + 1), path@, layer@, document_id@));
        i = i + 1;
    }
    assert(lv.take(leaves@.len() as int) =~= lv);
    // find the position of `path` among the sorted leaves
    let mut j: usize = 0;
    while j < leaves.len() && sorts_before(&leaves[j].0, path)
        invariant
            j <= leaves@.len(),
            lv == leaf_views(leaves@),
            lower_bound_from(lv, path@, j as int) == lower_bound_from(lv, path@, 0),
            forall|a: int| 0 <= a < j ==> lex_lt(#[trigger] lv[a].0, path@),
        decreases leaves@.len() - j,
    {
        j = j + 1;
    }
    let entry = (string_of(path), string_of(layer_chars.as_slice()));
    if j < leaves.len() && eq_str(path, leaves[j].0.as_str()) {
        leaves.set(j, entry);
        proof {
            let nv = leaf_views(leaves@);
            assert(nv =~= lv.update(j as int, (path@, layer@)));
            assert forall|a: int| 0 <= a < nv.len() implies (#[trigger] nv[a]).0 == lv[a].0 by {}
            assert(leaves_sorted(nv)) by {
                assert forall|a: int, b: int| 0 <= a < b < nv.len() implies lex_lt(#[trigger] nv[a].0, #[trigger] nv[b].0) by {
                    assert(nv[a].0 == lv[a].0 && nv[b].0 == lv[b].0);
                }
            }
            assert forall|p: Seq<char>| owner_of(nv, p) == if p == path@ { Some(layer@) } else { owner_of(lv, p) } by {
                lemma_owner_sorted(nv, p);
                lemma_owner_sorted(lv, p);
                if p == path@ {
                    assert(nv[j as int].0 == p);
                } else {
                    if exists|i: int| 0 <= i < lv.len() && (#[trigger] lv[i]).0 == p {
                        let i = choose|i: int| 0 <= i < lv.len() && (#[trigger] lv[i]).0 == p;
                        assert(nv[i] == lv[i]);
                    }
                    if exists|i: int| 0 <= i < nv.len() && (#[trigger] nv[i]).0 == p {
                        let i = choose|i: int| 0 <= i < nv.len() && (#[trigger] nv[i]).0 == p;
                        assert(nv[i] == lv[i]);
                    }
                }
            }
        }
    } else {
        proof {
            if j < lv.len() {
                lemma_lex_total(lv[j as int].0, path@);
            }
        }
        leaves.insert(j, entry);
        proof {
            let nv = leaf_views(leaves@);
            assert(nv =~= lv.insert(j as int, (path@, layer@)));
            assert forall|a: int, b: int| 0 <= a < b < nv.len() implies lex_lt(#[trigger] nv[a].0, #[trigger] nv[b].0) by {
                if b < j {
                } else if b == j {
                    assert(nv[a] == lv[a]);
                } else if a == j {
                    assert(nv[b] == lv[b - 1]);
                    if b - 1 > j {
                        lemma_lt_trans(path@, lv[j as int].0, lv[b - 1].0);
                    }
                } else if a < j {
                    assert(nv[a] == lv[a] && nv[b] == lv[b - 1]);
                } else {
                    assert(nv[a] == lv[a - 1] && nv[b] == lv[b - 1]);
                }
            }
            assert forall|p: Seq<char>| owner_of(nv, p) == if p == path@ { Some(layer@) } else { owner_of(lv, p) } by {
                lemma_owner_sorted(nv, p);
                lemma_owner_sorted(lv, p);
                if p != path@ {
                    if exists|i: int| 0 <= i < lv.len() && (#[trigger] lv[i]).0 == p {
                        let i = choose|i: int| 0 <= i < lv.len() && (#[trigger] lv[i]).0 == p;
                        if i < j {
                            assert(nv[i] == lv[i]);
                        } else {
                            assert(nv[i + 1] == lv[i]);
                        }
                    }
                    if exists|i: int| 0 <= i < nv.len() && (#[trigger] nv[i]).0 == p {
                        let i = choose|i: int| 0 <= i < nv.len() && (#[trigger] nv[i]).0 == p;
                        if i < j {
                            assert(nv[i] == lv[i]);
                        } else if i > j {
                            assert(nv[i] == lv[i - 1]);
                        }
                    }
                } else {
                    assert(nv[j as int].0 == p);
                    if exists|i: int| 0 <= i < lv.len() && (#[trigger] lv[i]).0 == p {
                        let i = choose|i: int| 0 <= i < lv.len() && (#[trigger] lv[i]).0 == p;
                        if i < j {
                        } else if i == j {
                        } else {
                            lemma_lt_trans(path@, lv[j as int].0, lv[i].0);
                        }
                    }
                }
            }
        }
    }
}

fn sorts_before(key: &String, path: &[char]) -> (r: bool)
    ensures
        r == lex_lt(key@, path@),
{
    let k = chars_of(key.as_str());
    lex_le_exec(k.as_slice(), path) && !crate::text::seq_eq(k.as_slice(), path)
}

/// In sorted leaves each path occurs at most once, so the owner of a
/// recorded path is the layer beside it.
proof fn lemma_owner_sorted(ls: Seq<(Seq<char>, Seq<char>)>, p: Seq<char>)
    requires
        leaves_sorted(ls),
    ensures
        forall|i: int| 0 <= i < ls.len() && (#[trigger] ls[i]).0 == p ==> owner_of(ls, p) == Some(ls[i].1),
{
    assert forall|i: int| 0 <= i < ls.len() && (#[trigger] ls[i]).0 == p implies owner_of(ls, p) == Some(ls[i].1) by {
        let c = choose|k: int| 0 <= k < ls.len() && (#[trigger] ls[k]).0 == p;
        if c < i {
            assert(lex_lt(ls[c].0, ls[i].0));
        } else if i < c {
            assert(lex_lt(ls[i].0, ls[c].0));
        }
    }
}

// ----- documents -------------------------------------------------------------

/// The layer id recorded for documents that came from the extractor.
pub open spec fn base_layer() -> Seq<char> {
    "base"@
}

/// One overlay document's stated reason for existing.
#[derive(Clone, Debug)]
pub struct CurationNote {
    pub document_id: String,
    pub layer: String,
    pub source: String,
    pub note: String,
}

pub open spec fn note_views(v: Seq<CurationNote>) -> Seq<(Seq<char>, Seq<char>, Seq<char>, Seq<char>)> {
    v.map_values(|n: CurationNote| (n.document_id@, n.layer@, n.source@, n.note@))
}

/// A merged document plus the provenance that produced it.
#[derive(Debug)]
pub struct MergedDocument {
    pub id: String,
    pub value: Doc,
    /// The layer the document was first seen in.
    pub origin_layer: String,
    pub origin_path: String,
    /// Whether at least one overlay layer touched this document.
    pub curated: bool,
    /// Which layer last wrote each leaf; base-layer writes are not recorded.
    leaf_layers: Vec<(String, String)>,
}

pub struct MergedView {
    pub id: Seq<char>,
    pub value: DocView,
    pub origin_layer: Seq<char>,
    pub origin_path: Seq<char>,
    pub curated: bool,
    pub leaves: Seq<(Seq<char>, Seq<char>)>,
}

impl MergedDocument {
    pub closed spec fn view(&self) -> MergedView {
        MergedView {
            id: self.id@,
            value: doc_view(self.value),
            origin_layer: self.origin_layer@,
            origin_path: self.origin_path@,
            curated: self.curated,
            leaves: leaf_views(self.leaf_layers@),
        }
    }

    pub closed spec fn wf(&self) -> bool {
        leaves_sorted(leaf_views(self.leaf_layers@))
    }

    /// The layer that last wrote the leaf at a dotted path.
    pub fn leaf_owner(&self, path: &str) -> (r: Option<String>)
        requires
            self.wf(),
        ensures
            match r {
                Some(l) => owner_of(self@.leaves, path@) == Some(l@),
                None => owner_of(self@.leaves, path@) is None,
            },
    {
        let p = chars_of(path);
        let ghost lv = leaf_views(self.leaf_layers@);
        let mut i: usize = 0;
        while i < self.leaf_layers.len()
            invariant
                i <= self.leaf_layers@.len(),
                lv == leaf_views(self.leaf_layers@),
                leaves_sorted(lv),
                p@ == path@,
                forall|k: int| 0 <= k < i ==> (#[trigger] lv[k]).0 != path@,
            decreases self.leaf_layers@.len() - i,
        {
            assert(lv[i as int] == (self.leaf_layers@[i as int].0@, self.leaf_layers@[i as int].1@));
            if eq_str(p.as_slice(), self.leaf_layers[i].0.as_str()) {
                proof { lemma_owner_sorted(lv, path@); }
                return Some(copy_text(&self.leaf_layers[i].1));
            }
            i = i + 1;
        }
        None
    }
}

/// Why a document could not be filed or patched.
#[derive(Debug, Clone, PartialEq, Eq)]
pub enum OverlayError {
    /// The document has no top-level text `id`.
    NoId { path: String },
    /// Two base documents carry one id.
    DeclaredTwice { id: String, first: String, second: String },
    /// An overlay document states no reason for existing.
    NoNote { layer: String, path: String, id: String },
    /// `_op: delete` names a document no layer supplies.
    DeleteMissing { layer: String, path: String, id: String },
    /// `_delete` is not a list.
    DeleteNotList { path: String },
    /// A `_delete` entry is not text.
    DeleteEntryNotText { path: String, index: usize },
}

pub open spec fn overlay_error_text(e: OverlayError) -> Seq<char> {
    match e {
        OverlayError::NoId { path } => path@ + ": document has no top-level string id"@,
        OverlayError::DeclaredTwice { id, first, second } => "document id "@ + id@ + " is declared twice: "@
            + first@ + " and "@ + second@,
        OverlayError::NoNote { layer, path, id } => "overlay layer "@ + layer@ + ": "@ + path@ + ": document "@
            + id@ + " carries no curation_note; every overlay document must state why it exists"@,
        OverlayError::DeleteMissing { layer, path, id } => "overlay layer "@ + layer@ + ": "@ + path@
            + ": `_op: delete` names document "@ + id@ + ", which no layer supplies"@,
        OverlayError::DeleteNotList { path } => path@ + ": `_delete` must be a list of dotted paths"@,
        OverlayError::DeleteEntryNotText { path, index } => path@ + ": `_delete` entry "@ + crate::text::decimal(index as nat)
            + " is not a dotted path string"@,
    }
}

impl OverlayError {
    pub fn message(&self) -> (r: String)
        ensures
            r@ == overlay_error_text(*self),
    {
        let mut out: Vec<char> = Vec::new();
        match self {
            OverlayError::NoId { path } => {
                push_str(&mut out, path.as_str());
                push_str(&mut out, ": document has no top-level string id");
            },
            OverlayError::DeclaredTwice { id, first, second } => {
                push_str(&mut out, "document id ");
                push_str(&mut out, id.as_str());
                push_str(&mut out, " is declared twice: ");
                push_str(&mut out, first.as_str());
                push_str(&mut out, " and ");
                push_str(&mut out, second.as_str());
            },
            OverlayError::NoNote { layer, path, id } => {
                push_str(&mut out, "overlay layer ");
                push_str(&mut out, layer.as_str());
                push_str(&mut out, ": ");
                push_str(&mut out, path.as_str());
                push_str(&mut out, ": document ");
                push_str(&mut out, id.as_str());
                push_str(&mut out, " carries no curation_note; every overlay document must state why it exists");
            },
            OverlayError::DeleteMissing { layer, path, id } => {
                push_str(&mut out, "overlay layer ");
                push_str(&mut out, layer.as_str());
                push_str(&mut out, ": ");
                push_str(&mut out, path.as_str());
                push_str(&mut out, ": `_op: delete` names document ");
                push_str(&mut out, id.as_str());
                push_str(&mut out, ", which no layer supplies");
            },
            OverlayError::DeleteNotList { path } => {
                push_str(&mut out, path.as_str());
                push_str(&mut out, ": `_delete` must be a list of dotted paths");
            },
            OverlayError::DeleteEntryNotText { path, index } => {
                push_str(&mut out, path.as_str());
                push_str(&mut out, ": `_delete` entry ");
                crate::text::push_decimal(&mut out, *index as u64);
                push_str(&mut out, " is not a dotted path string");
            },
        }
        assert(out@ =~= overlay_error_text(*self));
        string_of(out.as_slice())
    }
}

/// The document's id: its top-level text `id`.
pub open spec fn document_id_of(v: DocView) -> Option<Seq<char>> {
    text_at(v, "id"@)
}

/// The document's stated reason: its trimmed top-level `curation_note`,
/// when that is non-empty text.
pub open spec fn note_of(v: DocView) -> Option<Seq<char>> {
    match text_at(v, "curation_note"@) {
        Some(t) => if trim(t).len() > 0 { Some(trim(t)) } else { None },
        None => None,
    }
}

/// The dotted paths of a top-level `_delete` list: `None` when the key is
/// absent, the index of the first non-text entry, or the paths.
pub enum Deletions {
    Absent,
    NotAList,
    NotText(nat),
    Paths(Seq<Seq<char>>),
}

pub open spec fn first_non_text(items: Seq<DocView>) -> Option<nat>
    decreases items.len(),
{
    if items.len() == 0 {
        None
    } else {
        match first_non_text(items.drop_last()) {
            Some(i) => Some(i),
            None => if items.last() is Text { None } else { Some((items.len() - 1) as nat) },
        }
    }
}

pub open spec fn texts_of(items: Seq<DocView>) -> Seq<Seq<char>> {
    items.map_values(|d: DocView| d->Text_0)
}

pub open spec fn deletions_of(v: DocView) -> Deletions {
    match lookup(v, "_delete"@) {
        None => Deletions::Absent,
        Some(DocView::List(items)) => match first_non_text(items) {
            Some(i) => Deletions::NotText(i),
            None => Deletions::Paths(texts_of(items)),
        },
        Some(_) => Deletions::NotAList,
    }
}

fn document_id(value: &Doc) -> (r: Option<String>)
    ensures
        match r {
            Some(t) => document_id_of(doc_view(*value)) == Some(t@),
            None => document_id_of(doc_view(*value)) is None,
        },
{
    text_value(value, "id")
}

fn curation_note(value: &Doc) -> (r: Option<String>)
    ensures
        match r {
            Some(t) => note_of(doc_view(*value)) == Some(t@),
            None => note_of(doc_view(*value)) is None,
        },
{
    match text_value(value, "curation_note") {
        Some(t) => {
            let trimmed = trim_vec(chars_of(t.as_str()).as_slice());
            if trimmed.len() > 0 { Some(string_of(trimmed.as_slice())) } else { None }
        },
        None => None,
    }
}

/// The value under `key` of a mapping.
fn value_at<'a>(v: &'a Doc, key: &str) -> (r: Option<&'a Doc>)
    ensures
        match r {
            Some(d) => lookup(doc_view(*v), key@) == Some(doc_view(*d)),
            None => lookup(doc_view(*v), key@) is None,
        },
{
    match v {
        Doc::Mapping(xs) => {
            let k = chars_of(key);
            match find_key(xs, k.as_slice()) {
                Some(i) => {
                    proof { lemma_key_index_from(entries_view(xs@), key@, 0); }
                    assert(entries_view(xs@)[i as int] == (xs@[i as int].0@, doc_view(xs@[i as int].1)));
                    Some(&xs[i].1)
                },
                None => None,
            }
        },
        _ => None,
    }
}

pub enum DeletionList {
    Absent,
    NotAList,
    NotText(usize),
    Paths(Vec<Vec<char>>),
}

fn deletion_paths(patch: &Doc) -> (r: DeletionList)
    ensures
        match (r, deletions_of(doc_view(*patch))) {
            (DeletionList::Absent, Deletions::Absent) => true,
            (DeletionList::NotAList, Deletions::NotAList) => true,
            (DeletionList::NotText(i), Deletions::NotText(j)) => i as nat == j,
            (DeletionList::Paths(p), Deletions::Paths(q)) => views_of(p@) == q,
            _ => false,
        },
{
    match value_at(patch, "_delete") {
        None => DeletionList::Absent,
        Some(node) => match node {
            Doc::List(items) => {
                let ghost iv = list_view(items@);
                assert(doc_view(*node) == DocView::List(iv));
                let mut out: Vec<Vec<char>> = Vec::new();
                let mut i: usize = 0;
                assert(iv.take(0) =~= Seq::<DocView>::empty());
                while i < items.len()
                    invariant
                        i <= items@.len(),
                        iv == list_view(items@),
                        lookup(doc_view(*patch), "_delete"@) == Some(DocView::List(iv)),
                        first_non_text(iv.take(i as int)) is None,
                        views_of(out@) == texts_of(iv.take(i as int)),
                    decreases items@.len() - i,
                {
                    assert(iv.take(i + 1).drop_last() =~= iv.take(i as int));
                    assert(iv[i as int] == doc_view(items@[i as int]));
                    match &items[i] {
                        Doc::Text(t) => {
                            let ghost before = views_of(out@);
                            let c = chars_of(t.as_str());
                            out.push(c);
                            assert(iv[i as int] == DocView::Text(t@));
                            assert(views_of(out@) =~= before.push(t@));
                            assert(texts_of(iv.take(i + 1)) =~= texts_of(iv.take(i as int)).push(t@));
                        },
                        _ => {
                            proof { lemma_first_non_text_prefix(iv, i as int); }
                            return DeletionList::NotText(i);
                        },
                    }
                    i = i + 1;
                }
                assert(iv.take(items@.len() as int) =~= iv);
                DeletionList::Paths(out)
            },
            _ => DeletionList::NotAList,
        },
    }
}

proof fn lemma_first_non_text_prefix(items: Seq<DocView>, i: int)
    requires
        0 <= i < items.len(),
        first_non_text(items.take(i)) is None,
        !(items[i] is Text),
    ensures
        first_non_text(items) == Some(i as nat),
    decreases items.len(),
{
    if i < items.len() - 1 {
        assert(items.drop_last().take(i) =~= items.take(i));
        assert(items.drop_last()[i] == items[i]);
        lemma_first_non_text_prefix(items.drop_last(), i);
    } else {
        assert(items.drop_last() =~= items.take(i));
    }
}

// ----- the document set ---------------------------------------------------------

/// The leaves and conflicts after `layer` writes each of `writes` in order.
pub open spec fn record_writes(ls: Seq<(Seq<char>, Seq<char>)>, cs: Seq<(Seq<char>, Seq<char>, Seq<char>, Seq<char>)>,
    writes: Seq<Seq<char>>, layer: Seq<char>, doc: Seq<char>)
    -> (Seq<(Seq<char>, Seq<char>)>, Seq<(Seq<char>, Seq<char>, Seq<char>, Seq<char>)>)
    decreases writes.len(),
{
    if writes.len() == 0 {
        (ls, cs)
    } else {
        let p = record_writes(ls, cs, writes.drop_last(), layer, doc);
        (set_leaf(p.0, writes.last(), layer), p.1 + conflicts_for(p.0, writes.last(), layer, doc))
    }
}

fn record_all(writes: &Vec<Vec<char>>, layer: &str, leaves: &mut Vec<(String, String)>, conflicts: &mut Vec<Conflict>, document_id: &str)
    requires
        leaves_sorted(leaf_views(old(leaves)@)),
    ensures
        leaves_sorted(leaf_views(final(leaves)@)),
        (leaf_views(final(leaves)@), conflict_views(final(conflicts)@)) == record_writes(leaf_views(old(leaves)@),
            conflict_views(old(conflicts)@), views_of(writes@), layer@, document_id@),
{
    let ghost wv = views_of(writes@);
    let ghost l0 = leaf_views(leaves@);
    let ghost c0 = conflict_views(conflicts@);
    let mut i: usize = 0;
    assert(wv.take(0) =~= Seq::<Seq<char>>::empty());
    while i < writes.len()
        invariant
            i <= writes@.len(),
            wv == views_of(writes@),
            l0 == leaf_views(old(leaves)@),
            c0 == conflict_views(old(conflicts)@),
            leaves_sorted(leaf_views(leaves@)),
            (leaf_views(leaves@), conflict_views(conflicts@)) == record_writes(l0, c0, wv.take(i as int), layer@, document_id@),
        decreases writes@.len() - i,
    {
        assert(wv.take(i + 1).drop_last() =~= wv.take(i as int));
        assert(wv.take(i + 1).last() == writes@[i as int]@);
        record_leaf(writes[i].as_slice(), layer, leaves, conflicts, document_id);
        i = i + 1;
    }
    assert(wv.take(writes@.len() as int) =~= wv);
}

pub open spec fn merged_views(v: Seq<MergedDocument>) -> Seq<MergedView> {
    v.map_values(|d: MergedDocument| d@)
}

/// The first position whose id does not sort before `id`, from `i` on.
pub open spec fn doc_bound_from(ds: Seq<MergedView>, id: Seq<char>, i: int) -> int
    decreases ds.len() - i,
{
    if i < 0 || i >= ds.len() || !lex_lt(ds[i].id, id) {
        i
    } else {
        doc_bound_from(ds, id, i + 1)
    }
}

/// The position of the document with `id`, if the set holds one.
pub open spec fn doc_index(ds: Seq<MergedView>, id: Seq<char>) -> Option<int> {
    let j = doc_bound_from(ds, id, 0);
    if 0 <= j < ds.len() && ds[j].id == id { Some(j) } else { None }
}

pub struct SetView {
    pub docs: Seq<MergedView>,
    pub notes: Seq<(Seq<char>, Seq<char>, Seq<char>, Seq<char>)>,
    pub conflicts: Seq<(Seq<char>, Seq<char>, Seq<char>, Seq<char>)>,
    pub deleted: Seq<Seq<char>>,
}

/// How filing or patching a document ended.
pub enum Outcome {
    Done,
    NoId(Seq<char>),
    DeclaredTwice(Seq<char>, Seq<char>, Seq<char>),
    NoNote(Seq<char>, Seq<char>, Seq<char>),
    DeleteMissing(Seq<char>, Seq<char>, Seq<char>),
    DeleteNotList(Seq<char>),
    DeleteEntryNotText(Seq<char>, nat),
}

pub open spec fn outcome_of(r: Result<(), OverlayError>) -> Outcome {
    match r {
        Ok(()) => Outcome::Done,
        Err(OverlayError::NoId { path }) => Outcome::NoId(path@),
        Err(OverlayError::DeclaredTwice { id, first, second }) => Outcome::DeclaredTwice(id@, first@, second@),
        Err(OverlayError::NoNote { layer, path, id }) => Outcome::NoNote(layer@, path@, id@),
        Err(OverlayError::DeleteMissing { layer, path, id }) => Outcome::DeleteMissing(layer@, path@, id@),
        Err(OverlayError::DeleteNotList { path }) => Outcome::DeleteNotList(path@),
        Err(OverlayError::DeleteEntryNotText { path, index }) => Outcome::DeleteEntryNotText(path@, index as nat),
    }
}

/// Filing one base-layer document: refused without an id or when another
/// document already carries it; otherwise its note is recorded and it joins
/// the set unmarked by any overlay.
pub open spec fn base_step(s: SetView, path: Seq<char>, v: DocView) -> (SetView, Outcome) {
    match document_id_of(v) {
        None => (s, Outcome::NoId(path)),
        Some(id) => match doc_index(s.docs, id) {
            Some(k) => (s, Outcome::DeclaredTwice(id, s.docs[k].origin_path, path)),
            None => {
                let notes = match note_of(v) {
                    Some(n) => s.notes.push((id, base_layer(), path, n)),
                    None => s.notes,
                };
                let doc = MergedView { id, value: v, origin_layer: base_layer(), origin_path: path, curated: false, leaves: Seq::empty() };
                (SetView { docs: s.docs.insert(doc_bound_from(s.docs, id, 0), doc), notes, ..s }, Outcome::Done)
            },
        },
    }
}

/// Applying one overlay document as a patch over whatever the set holds for
/// its id. A patch without an id or a note is refused before anything
/// changes; its note is recorded before anything else can fail.
pub open spec fn overlay_step(s: SetView, layer: Seq<char>, path: Seq<char>, v: DocView) -> (SetView, Outcome) {
    match document_id_of(v) {
        None => (s, Outcome::NoId(path)),
        Some(id) => match note_of(v) {
            None => (s, Outcome::NoNote(layer, path, id)),
            Some(n) => {
                let noted = SetView { notes: s.notes.push((id, layer, path, n)), ..s };
                if text_at(v, "_op"@) == Some("delete"@) {
                    match doc_index(s.docs, id) {
                        Some(k) => (SetView { docs: s.docs.remove(k), deleted: s.deleted.push(id), ..noted }, Outcome::Done),
                        None => (noted, Outcome::DeleteMissing(layer, path, id)),
                    }
                } else {
                    match deletions_of(v) {
                        Deletions::NotAList => (noted, Outcome::DeleteNotList(path)),
                        Deletions::NotText(i) => (noted, Outcome::DeleteEntryNotText(path, i)),
                        Deletions::Absent => patched(noted, layer, path, v, id, Seq::empty()),
                        Deletions::Paths(q) => patched(noted, layer, path, v, id, q),
                    }
                }
            },
        },
    }
}

/// The set after the patch is merged into the document with `id`, or into a
/// new empty mapping when no layer supplied one yet.
pub open spec fn patched(s: SetView, layer: Seq<char>, path: Seq<char>, v: DocView, id: Seq<char>, dels: Seq<Seq<char>>) -> (SetView, Outcome) {
    match doc_index(s.docs, id) {
        Some(k) => {
            let d = s.docs[k];
            let m = merge_view(d.value, v, Seq::empty());
            let r = record_writes(d.leaves, s.conflicts, m.1, layer, id);
            let doc = MergedView { value: apply_deletions_view(m.0, dels), curated: true, leaves: r.0, ..d };
            (SetView { docs: s.docs.update(k, doc), conflicts: r.1, ..s }, Outcome::Done)
        },
        None => {
            let m = merge_view(DocView::Mapping(Seq::empty()), v, Seq::empty());
            let r = record_writes(Seq::empty(), s.conflicts, m.1, layer, id);
            let doc = MergedView { id, value: apply_deletions_view(m.0, dels), origin_layer: layer, origin_path: path, curated: true, leaves: r.0 };
            (SetView { docs: s.docs.insert(doc_bound_from(s.docs, id, 0), doc), conflicts: r.1, ..s }, Outcome::Done)
        },
    }
}

/// Every document of a build, in ascending id order, after merging.
#[derive(Debug, Default)]
pub struct DocumentSet {
    documents: Vec<MergedDocument>,
    pub notes: Vec<CurationNote>,
    pub conflicts: Vec<Conflict>,
    /// Ids an overlay removed with a top-level `_op: delete`.
    pub deleted: Vec<String>,
}

impl DocumentSet {
    pub closed spec fn view(&self) -> SetView {
        SetView {
            docs: merged_views(self.documents@),
            notes: note_views(self.notes@),
            conflicts: conflict_views(self.conflicts@),
            deleted: text_views_of(self.deleted@),
        }
    }

    /// Ids strictly ascending and every document's leaves sorted.
    pub closed spec fn wf(&self) -> bool {
        &&& forall|a: int, b: int| 0 <= a < b < self.documents@.len() ==> lex_lt(#[trigger] self.documents@[a].id@, #[trigger] self.documents@[b].id@)
        &&& forall|a: int| 0 <= a < self.documents@.len() ==> (#[trigger] self.documents@[a]).wf()
    }

    pub fn new() -> (s: Self)
        ensures
            s.wf(),
            s@.docs.len() == 0,
            s@.notes.len() == 0,
            s@.conflicts.len() == 0,
            s@.deleted.len() == 0,
    {
        DocumentSet { documents: Vec::new(), notes: Vec::new(), conflicts: Vec::new(), deleted: Vec::new() }
    }

    pub fn len(&self) -> (r: usize)
        ensures
            r == self@.docs.len(),
    {
        self.documents.len()
    }

    pub fn is_empty(&self) -> (r: bool)
        ensures
            r == (self@.docs.len() == 0),
    {
        self.documents.len() == 0
    }

    /// The documents in ascending id order.
    pub fn iter(&self) -> (r: &Vec<MergedDocument>)
        ensures
            merged_views(r@) == self@.docs,
    {
        &self.documents
    }

    fn bound(&self, id: &[char]) -> (j: usize)
        ensures
            j == doc_bound_from(self@.docs, id@, 0),
            j <= self@.docs.len(),
    {
        let ghost ds = self@.docs;
        let mut j: usize = 0;
        while j < self.documents.len() && sorts_before(&self.documents[j].id, id)
            invariant
                j <= self.documents@.len(),
                ds == merged_views(self.documents@),
                doc_bound_from(ds, id@, j as int) == doc_bound_from(ds, id@, 0),
            decreases self.documents@.len() - j,
        {
            proof { lemma_merged_view_at(self.documents@, j as int); }
            j = j + 1;
        }
        proof {
            if j < self.documents@.len() {
                lemma_merged_view_at(self.documents@, j as int);
            }
        }
        j
    }

    fn index_of(&self, id: &[char]) -> (r: Option<usize>)
        ensures
            match r {
                Some(k) => doc_index(self@.docs, id@) == Some(k as int),
                None => doc_index(self@.docs, id@) is None,
            },
    {
        let j = self.bound(id);
        if j < self.documents.len() && eq_str(id, self.documents[j].id.as_str()) {
            proof { lemma_merged_view_at(self.documents@, j as int); }
            Some(j)
        } else {
            proof {
                if j < self.documents@.len() {
                    lemma_merged_view_at(self.documents@, j as int);
                }
            }
            None
        }
    }

    /// The merged document with `id`.
    pub fn get(&self, id: &str) -> (r: Option<&MergedDocument>)
        ensures
            match r {
                Some(d) => doc_index(self@.docs, id@) matches Some(k) && d@ == self@.docs[k],
                None => doc_index(self@.docs, id@) is None,
            },
    {
        let key = chars_of(id);
        match self.index_of(key.as_slice()) {
            Some(k) => {
                proof { lemma_merged_view_at(self.documents@, k as int); }
                Some(&self.documents[k])
            },
            None => None,
        }
    }
}

pub open spec fn text_views_of(v: Seq<String>) -> Seq<Seq<char>> {
    v.map_values(|s: String| s@)
}

proof fn lemma_merged_view_at(v: Seq<MergedDocument>, k: int)
    requires
        0 <= k < v.len(),
    ensures
        merged_views(v)[k] == v[k]@,
        merged_views(v)[k].id == v[k].id@,
        merged_views(v).len() == v.len(),
{
    reveal(MergedDocument::view);
}

impl DocumentSet {
    fn insert_at(&mut self, j: usize, doc: MergedDocument)
        requires
            old(self).wf(),
            j == doc_bound_from(old(self)@.docs, doc.id@, 0),
            doc_index(old(self)@.docs, doc.id@) is None,
            doc.wf(),
        ensures
            final(self).wf(),
            final(self)@ == (SetView { docs: old(self)@.docs.insert(j as int, doc@), ..old(self)@ }),
    {
        let ghost ds = self@.docs;
        let ghost dv = doc@;
        proof { lemma_doc_bound(ds, dv.id); }
        self.documents.insert(j, doc);
        proof {
            reveal(MergedDocument::view);
            let nd = self.documents@;
            assert(merged_views(nd) =~= ds.insert(j as int, dv));
            assert forall|a: int, b: int| 0 <= a < b < nd.len() implies lex_lt(#[trigger] nd[a].id@, #[trigger] nd[b].id@) by {
                assert(merged_views(nd)[a].id == nd[a].id@);
                assert(merged_views(nd)[b].id == nd[b].id@);
                if j < ds.len() {
                    lemma_lex_total(ds[j as int].id, dv.id);
                }
                if b < j {
                    assert(ds[a].id == old(self).documents@[a].id@);
                    assert(ds[b].id == old(self).documents@[b].id@);
                } else if b == j {
                    assert(ds[a].id == old(self).documents@[a].id@);
                } else if a == j {
                    assert(ds[b - 1].id == old(self).documents@[b - 1].id@);
                    if b - 1 > j {
                        assert(ds[j as int].id == old(self).documents@[j as int].id@);
                        lemma_lt_trans(dv.id, ds[j as int].id, ds[b - 1].id);
                    }
                } else if a < j {
                    assert(ds[a].id == old(self).documents@[a].id@);
                    assert(ds[b - 1].id == old(self).documents@[b - 1].id@);
                } else {
                    assert(ds[a - 1].id == old(self).documents@[a - 1].id@);
                    assert(ds[b - 1].id == old(self).documents@[b - 1].id@);
                }
            }
            assert forall|a: int| 0 <= a < nd.len() implies (#[trigger] nd[a]).wf() by {
                if a < j {
                    assert(nd[a] == old(self).documents@[a]);
                } else if a > j {
                    assert(nd[a] == old(self).documents@[a - 1]);
                }
            }
        }
    }

    /// Files one base-layer document. Two base documents with one id are
    /// refused: nothing decides which one wins.
    pub fn insert_base(&mut self, path: &str, value: Doc) -> (r: Result<(), OverlayError>)
        requires
            old(self).wf(),
        ensures
            final(self).wf(),
            (final(self)@, outcome_of(r)) == base_step(old(self)@, path@, doc_view(value)),
    {
        let id = match document_id(&value) {
            Some(id) => id,
            None => return Err(OverlayError::NoId { path: copy_text(&string_of(chars_of(path).as_slice())) }),
        };
        let key = chars_of(id.as_str());
        match self.index_of(key.as_slice()) {
            Some(k) => {
                proof { lemma_merged_view_at(self.documents@, k as int); }
                return Err(OverlayError::DeclaredTwice {
                    id,
                    first: copy_text(&self.documents[k].origin_path),
                    second: string_of(chars_of(path).as_slice()),
                });
            },
            None => {},
        }
        let ghost before = self@;
        match curation_note(&value) {
            Some(note) => {
                let n = CurationNote {
                    document_id: copy_text(&id),
                    layer: string_of(chars_of("base").as_slice()),
                    source: string_of(chars_of(path).as_slice()),
                    note,
                };
                let ghost nb = note_views(self.notes@);
                self.notes.push(n);
                assert(note_views(self.notes@) =~= nb.push((id@, base_layer(), path@, n.note@)));
            },
            None => {},
        }
        let j = self.bound(key.as_slice());
        let ghost v = doc_view(value);
        let doc = MergedDocument {
            id,
            value,
            origin_layer: string_of(chars_of("base").as_slice()),
            origin_path: string_of(chars_of(path).as_slice()),
            curated: false,
            leaf_layers: Vec::new(),
        };
        proof {
            reveal(MergedDocument::view);
            assert(leaf_views(doc.leaf_layers@) =~= Seq::empty());
        }
        self.insert_at(j, doc);
        Ok(())
    }
}

proof fn lemma_doc_bound(ds: Seq<MergedView>, id: Seq<char>)
    ensures
        0 <= doc_bound_from(ds, id, 0) <= ds.len(),
        forall|a: int| 0 <= a < doc_bound_from(ds, id, 0) ==> lex_lt(#[trigger] ds[a].id, id),
        doc_bound_from(ds, id, 0) < ds.len() ==> !lex_lt(ds[doc_bound_from(ds, id, 0)].id, id),
{
    lemma_doc_bound_from(ds, id, 0);
}

proof fn lemma_doc_bound_from(ds: Seq<MergedView>, id: Seq<char>, i: int)
    requires
        0 <= i <= ds.len(),
        forall|a: int| 0 <= a < i ==> lex_lt(#[trigger] ds[a].id, id),
    ensures
        i <= doc_bound_from(ds, id, i) <= ds.len(),
        forall|a: int| 0 <= a < doc_bound_from(ds, id, i) ==> lex_lt(#[trigger] ds[a].id, id),
        doc_bound_from(ds, id, i) < ds.len() ==> !lex_lt(ds[doc_bound_from(ds, id, i)].id, id),
    decreases ds.len() - i,
{
    if i < ds.len() && lex_lt(ds[i].id, id) {
        lemma_doc_bound_from(ds, id, i + 1);
    }
}

impl DocumentSet {
    /// Applies one overlay document as a patch over whatever the merged
    /// result holds for its id so far. A patch naming an id no layer carries
    /// adds the document.
    pub fn apply_overlay(&mut self, layer: &str, path: &str, patch: Doc) -> (r: Result<(), OverlayError>)
        requires
            old(self).wf(),
        ensures
            final(self).wf(),
            (final(self)@, outcome_of(r)) == overlay_step(old(self)@, layer@, path@, doc_view(patch)),
    {
        let ghost s0 = self@;
        let ghost pv = doc_view(patch);
        let own_path = string_of(chars_of(path).as_slice());
        let own_layer = string_of(chars_of(layer).as_slice());
        let id = match document_id(&patch) {
            Some(id) => id,
            None => return Err(OverlayError::NoId { path: own_path }),
        };
        let note = match curation_note(&patch) {
            Some(n) => n,
            None => return Err(OverlayError::NoNote { layer: own_layer, path: own_path, id }),
        };
        let n = CurationNote {
            document_id: copy_text(&id),
            layer: copy_text(&own_layer),
            source: copy_text(&own_path),
            note,
        };
        let ghost nb = note_views(self.notes@);
        self.notes.push(n);
        assert(note_views(self.notes@) =~= nb.push((id@, layer@, path@, n.note@)));
        let ghost s1 = self@;
        let key = chars_of(id.as_str());
        let deleting = match text_value(&patch, "_op") {
            Some(op) => eq_str(chars_of(op.as_str()).as_slice(), "delete"),
            None => false,
        };
        if deleting {
            match self.index_of(key.as_slice()) {
                Some(k) => {
                    let ghost ds = self@.docs;
                    let _gone = self.documents.remove(k);
                    let ghost db = text_views_of(self.deleted@);
                    self.deleted.push(copy_text(&id));
                    proof {
                        reveal(MergedDocument::view);
                        assert(merged_views(self.documents@) =~= ds.remove(k as int));
                        assert(text_views_of(self.deleted@) =~= db.push(id@));
                        let nd = self.documents@;
                        let od = old(self).documents@;
                        assert forall|a: int, b: int| 0 <= a < b < nd.len() implies lex_lt(#[trigger] nd[a].id@, #[trigger] nd[b].id@) by {
                            if b < k {
                                assert(nd[a] == od[a] && nd[b] == od[b]);
                            } else if a < k {
                                assert(nd[a] == od[a] && nd[b] == od[b + 1]);
                            } else {
                                assert(nd[a] == od[a + 1] && nd[b] == od[b + 1]);
                            }
                        }
                        assert forall|a: int| 0 <= a < nd.len() implies (#[trigger] nd[a]).wf() by {
                            if a < k {
                                assert(nd[a] == od[a]);
                            } else {
                                assert(nd[a] == od[a + 1]);
                            }
                        }
                    }
                    return Ok(());
                },
                None => {
                    return Err(OverlayError::DeleteMissing { layer: own_layer, path: own_path, id });
                },
            }
        }
        let dels: Vec<Vec<char>> = match deletion_paths(&patch) {
            DeletionList::NotAList => return Err(OverlayError::DeleteNotList { path: own_path }),
            DeletionList::NotText(i) => return Err(OverlayError::DeleteEntryNotText { path: own_path, index: i }),
            DeletionList::Absent => {
                let empty: Vec<Vec<char>> = Vec::new();
                assert(views_of(empty@) =~= Seq::<Seq<char>>::empty());
                empty
            },
            DeletionList::Paths(p) => p,
        };
        let root: Vec<char> = Vec::new();
        match self.index_of(key.as_slice()) {
            Some(k) => {
                let ghost ds = self@.docs;
                proof { lemma_merged_view_at(self.documents@, k as int); }
                let d = self.documents.remove(k);
                let ghost dview = d@;
                let MergedDocument { id: did, value, origin_layer, origin_path, curated: _, leaf_layers } = d;
                let mut leaf_layers = leaf_layers;
                proof { reveal(MergedDocument::view); }
                let (merged, writes) = merge_into(value, &patch, root.as_slice());
                assert(root@ =~= Seq::<char>::empty());
                record_all(&writes, layer, &mut leaf_layers, &mut self.conflicts, id.as_str());
                let cleaned = apply_deletions(merged, &dels);
                let doc = MergedDocument { id: did, value: cleaned, origin_layer, origin_path, curated: true, leaf_layers };
                self.documents.insert(k, doc);
                proof {
                    reveal(MergedDocument::view);
                    assert(merged_views(self.documents@) =~= ds.update(k as int, doc@));
                    let nd = self.documents@;
                    let od = old(self).documents@;
                    assert forall|a: int| 0 <= a < nd.len() implies (#[trigger] nd[a]).id@ == od[a].id@ by {
                        if a != k {
                            assert(nd[a] == od[a]);
                        }
                    }
                    assert forall|a: int, b: int| 0 <= a < b < nd.len() implies lex_lt(#[trigger] nd[a].id@, #[trigger] nd[b].id@) by {
                        assert(nd[a].id@ == od[a].id@ && nd[b].id@ == od[b].id@);
                    }
                    assert forall|a: int| 0 <= a < nd.len() implies (#[trigger] nd[a]).wf() by {
                        if a != k {
                            assert(nd[a] == od[a]);
                        }
                    }
                }
                Ok(())
            },
            None => {
                let mut leaf_layers: Vec<(String, String)> = Vec::new();
                let fresh: Vec<(String, Doc)> = Vec::new();
                assert(entries_view(fresh@) =~= Seq::empty());
                let start = Doc::Mapping(fresh);
                assert(doc_view(start) == DocView::Mapping(Seq::empty()));
                let (merged, writes) = merge_into(start, &patch, root.as_slice());
                assert(root@ =~= Seq::<char>::empty());
                assert(leaf_views(leaf_layers@) =~= Seq::empty());
                record_all(&writes, layer, &mut leaf_layers, &mut self.conflicts, id.as_str());
                let cleaned = apply_deletions(merged, &dels);
                let j = self.bound(key.as_slice());
                let doc = MergedDocument {
                    id,
                    value: cleaned,
                    origin_layer: own_layer,
                    origin_path: own_path,
                    curated: true,
                    leaf_layers,
                };
                proof { reveal(MergedDocument::view); }
                self.insert_at(j, doc);
                Ok(())
            },
        }
    }
}

// ----- patch vocabulary and layer ids ----------------------------------------------

/// `es` without the entry keyed `k`, the last entry taking its place.
pub open spec fn without_key(es: Seq<(Seq<char>, DocView)>, k: Seq<char>) -> Seq<(Seq<char>, DocView)> {
    match key_index(es, k) {
        Some(i) => swap_removed(es, i),
        None => es,
    }
}

/// A merged document without the patch vocabulary at its top level.
pub open spec fn without_patch_keys(v: DocView) -> DocView {
    match v {
        DocView::Mapping(es) => DocView::Mapping(without_key(without_key(without_key(es, "curation_note"@), "_delete"@), "_op"@)),
        _ => v,
    }
}

fn remove_key(es: &mut Vec<(String, Doc)>, key: &str)
    ensures
        entries_view(final(es)@) == without_key(entries_view(old(es)@), key@),
{
    let k = chars_of(key);
    match find_key(es, k.as_slice()) {
        Some(i) => {
            let ghost ev = entries_view(es@);
            proof { lemma_key_index_from(ev, key@, 0); }
            let _removed = es.swap_remove(i);
            assert(entries_view(es@) =~= swap_removed(ev, i as int));
        },
        None => {},
    }
}

/// Removes `curation_note`, `_delete` and `_op` from a merged document
/// before it is read as a typed row, so notes never reach table bytes.
pub fn strip_patch_keys(value: Doc) -> (out: Doc)
    ensures
        doc_view(out) == without_patch_keys(doc_view(value)),
{
    match value {
        Doc::Mapping(es) => {
            let mut es = es;
            remove_key(&mut es, "curation_note");
            remove_key(&mut es, "_delete");
            remove_key(&mut es, "_op");
            Doc::Mapping(es)
        },
        other => other,
    }
}

/// A layer id: non-empty hyphen-separated non-empty runs of lowercase ASCII
/// letters and digits.
pub open spec fn is_layer_id_of(v: Seq<char>) -> bool {
    v.len() > 0 && forall|i: int| 0 <= i < split(v, '-').len() ==> {
        let part = #[trigger] split(v, '-')[i];
        part.len() > 0 && forall|j: int| 0 <= j < part.len() ==> is_lower(part[j]) || is_digit(part[j])
    }
}

pub fn is_layer_id(value: &str) -> (r: bool)
    ensures
        r == is_layer_id_of(value@),
{
    let v = chars_of(value);
    if v.len() == 0 {
        return false;
    }
    let parts = split_vec(v.as_slice(), '-');
    let mut i: usize = 0;
    while i < parts.len()
        invariant
            i <= parts@.len(),
            v@ == value@,
            v@.len() > 0,
            parts@.len() == split(v@, '-').len(),
            forall|k: int| 0 <= k < parts@.len() ==> #[trigger] parts@[k]@ == split(v@, '-')[k],
            forall|k: int| 0 <= k < i ==> {
                let part = #[trigger] split(v@, '-')[k];
                part.len() > 0 && forall|j: int| 0 <= j < part.len() ==> is_lower(part[j]) || is_digit(part[j])
            },
        decreases parts@.len() - i,
    {
        let part = &parts[i];
        assert(part@ == split(v@, '-')[i as int]);
        if part.len() == 0 {
            return false;
        }
        let mut j: usize = 0;
        while j < part.len()
            invariant
                j <= part@.len(),
                v@ == value@,
                0 <= i < split(v@, '-').len(),
                part@ == split(v@, '-')[i as int],
                forall|m: int| 0 <= m < j ==> is_lower(part@[m]) || is_digit(part@[m]),
            decreases part@.len() - j,
        {
            if !(char_is_lower(part[j]) || char_is_digit(part[j])) {
                assert(!(is_lower(split(v@, '-')[i as int][j as int]) || is_digit(split(v@, '-')[i as int][j as int])));
                return false;
            }
            j = j + 1;
        }
        i = i + 1;
    }
    true
}

/// One entry of the layer manifest.
#[derive(Debug, Clone)]
pub struct LayerEntry {
    pub id: String,
    pub description: String,
    /// Whether a build that names no layer applies this one.
    pub apply_by_default: bool,
}

/// Why the layer selection was refused.
#[derive(Debug, Clone, PartialEq, Eq)]
pub enum LayerError {
    /// Layers were named but the manifest does not exist.
    NoManifest { manifest: String, selected: String },
    /// A manifest id is not a lowercase hyphenated slug.
    BadId { manifest: String, id: String },
    /// A manifest id is listed twice.
    Duplicate { manifest: String, id: String },
    /// A named layer is not in the manifest; `listed` names what it holds.
    Unknown { manifest: String, wanted: String, listed: String },
}

pub open spec fn entry_ids(es: Seq<LayerEntry>) -> Seq<Seq<char>> {
    es.map_values(|e: LayerEntry| e.id@)
}

/// The first manifest entry whose id is not a layer id, or repeats an
/// earlier one.
pub open spec fn first_bad_entry(ids: Seq<Seq<char>>) -> Option<(int, bool)>
    decreases ids.len(),
{
    if ids.len() == 0 {
        None
    } else {
        match first_bad_entry(ids.drop_last()) {
            Some(r) => Some(r),
            None => if !is_layer_id_of(ids.last()) {
                Some(((ids.len() - 1) as int, false))
            } else if ids.drop_last().contains(ids.last()) {
                Some(((ids.len() - 1) as int, true))
            } else {
                None
            },
        }
    }
}

/// Whether entry `e` is applied: by default when no layer is named,
/// otherwise when it is named.
pub open spec fn wanted(e: Seq<char>, default_on: bool, selected: Seq<Seq<char>>) -> bool {
    if selected.len() == 0 { default_on } else { selected.contains(e) }
}

/// The positions of the chosen entries, in manifest order.
pub open spec fn chosen(es: Seq<LayerEntry>, selected: Seq<Seq<char>>) -> Seq<int>
    decreases es.len(),
{
    if es.len() == 0 {
        Seq::empty()
    } else if wanted(es.last().id@, es.last().apply_by_default, selected) {
        chosen(es.drop_last(), selected).push((es.len() - 1) as int)
    } else {
        chosen(es.drop_last(), selected)
    }
}

/// The first named layer the manifest does not list.
pub open spec fn first_unknown(selected: Seq<Seq<char>>, ids: Seq<Seq<char>>) -> Option<int>
    decreases selected.len(),
{
    if selected.len() == 0 {
        None
    } else {
        match first_unknown(selected.drop_last(), ids) {
            Some(i) => Some(i),
            None => if ids.contains(selected.last()) { None } else { Some((selected.len() - 1) as int) },
        }
    }
}

pub open spec fn layer_entry_views(v: Seq<LayerEntry>) -> Seq<(Seq<char>, Seq<char>, bool)> {
    v.map_values(|e: LayerEntry| (e.id@, e.description@, e.apply_by_default))
}

/// What the layer selection answers.
pub enum LayerChoice {
    Layers(Seq<int>),
    NoManifest(Seq<char>),
    BadId(Seq<char>),
    Duplicate(Seq<char>),
    Unknown(Seq<char>),
}

/// The layers a build applies, in manifest order: every default-on layer
/// when none is named, else exactly the named ones. A missing manifest
/// defines no layer; a malformed or repeated id, or a name the manifest does
/// not list, is refused.
pub open spec fn layer_choice(present: bool, es: Seq<LayerEntry>, selected: Seq<Seq<char>>) -> LayerChoice {
    if !present {
        if selected.len() > 0 { LayerChoice::NoManifest(join(selected, ", "@)) } else { LayerChoice::Layers(Seq::empty()) }
    } else {
        match first_bad_entry(entry_ids(es)) {
            Some((i, dup)) => if dup { LayerChoice::Duplicate(entry_ids(es)[i]) } else { LayerChoice::BadId(entry_ids(es)[i]) },
            None => match first_unknown(selected, entry_ids(es)) {
                Some(i) => LayerChoice::Unknown(selected[i]),
                None => LayerChoice::Layers(chosen(es, selected)),
            },
        }
    }
}

fn contains_text(v: &Vec<String>, x: &[char], upto: usize) -> (r: bool)
    requires
        upto <= v@.len(),
    ensures
        r == text_views(v@).take(upto as int).contains(x@),
{
    let mut i: usize = 0;
    while i < upto
        invariant
            i <= upto <= v@.len(),
            forall|k: int| 0 <= k < i ==> text_views(v@)[k] != x@,
        decreases upto - i,
    {
        assert(text_views(v@)[i as int] == v@[i as int]@);
        if eq_str(x, v[i].as_str()) {
            assert(text_views(v@).take(upto as int)[i as int] == x@);
            return true;
        }
        i = i + 1;
    }
    assert forall|k: int| 0 <= k < text_views(v@).take(upto as int).len() implies text_views(v@).take(upto as int)[k] != x@ by {
        assert(text_views(v@).take(upto as int)[k] == text_views(v@)[k]);
    }
    false
}

fn ids_of(entries: &Vec<LayerEntry>) -> (out: Vec<String>)
    ensures
        text_views(out@) == entry_ids(entries@),
{
    let mut out: Vec<String> = Vec::new();
    let mut i: usize = 0;
    while i < entries.len()
        invariant
            i <= entries@.len(),
            text_views(out@) == entry_ids(entries@).take(i as int),
        decreases entries@.len() - i,
    {
        let ghost before = text_views(out@);
        let id = copy_text(&entries[i].id);
        out.push(id);
        assert(text_views(out@) =~= before.push(id@));
        assert(text_views(out@) =~= entry_ids(entries@).take(i + 1));
        i = i + 1;
    }
    assert(entry_ids(entries@).take(entries@.len() as int) =~= entry_ids(entries@));
    out
}

fn joined(v: &Vec<String>, sep: &str) -> (out: String)
    ensures
        out@ == join(text_views(v@), sep@),
{
    let mut parts: Vec<Vec<char>> = Vec::new();
    let mut i: usize = 0;
    while i < v.len()
        invariant
            i <= v@.len(),
            views_of(parts@) == text_views(v@).take(i as int),
        decreases v@.len() - i,
    {
        let ghost before = views_of(parts@);
        let c = chars_of(v[i].as_str());
        parts.push(c);
        assert(views_of(parts@) =~= before.push(c@));
        assert(views_of(parts@) =~= text_views(v@).take(i + 1));
        i = i + 1;
    }
    assert(text_views(v@).take(v@.len() as int) =~= text_views(v@));
    let s = chars_of(sep);
    string_of(join_vec(&parts, s.as_slice()).as_slice())
}

/// Selects the manifest entries a build applies.
pub fn choose_layers(manifest: &str, present: bool, entries: &Vec<LayerEntry>, selected: &Vec<String>)
    -> (r: Result<Vec<LayerEntry>, LayerError>)
    ensures
        match (r, layer_choice(present, entries@, text_views(selected@))) {
            (Ok(out), LayerChoice::Layers(ix)) => out@.len() == ix.len()
                && forall|k: int| 0 <= k < ix.len() ==> layer_entry_views(out@)[k] == layer_entry_views(entries@)[#[trigger] ix[k]],
            (Err(LayerError::NoManifest { manifest: m, selected: s }), LayerChoice::NoManifest(t)) => m@ == manifest@ && s@ == t,
            (Err(LayerError::BadId { manifest: m, id }), LayerChoice::BadId(t)) => m@ == manifest@ && id@ == t,
            (Err(LayerError::Duplicate { manifest: m, id }), LayerChoice::Duplicate(t)) => m@ == manifest@ && id@ == t,
            (Err(LayerError::Unknown { manifest: m, wanted: w, listed }), LayerChoice::Unknown(t)) => m@ == manifest@ && w@ == t
                && if entries@.len() == 0 { listed@ == "none"@ } else {
                    exists|s: Seq<Seq<char>>| s.to_multiset() == entry_ids(entries@).to_multiset() && sorted_paths(s)
                        && listed@ == join(s, ", "@)
                },
            _ => false,
        },
{
    let own_manifest = string_of(chars_of(manifest).as_slice());
    if !present {
        if selected.len() > 0 {
            return Err(LayerError::NoManifest { manifest: own_manifest, selected: joined(selected, ", ") });
        }
        return Ok(Vec::new());
    }
    let ids = ids_of(entries);
    let ghost iv = entry_ids(entries@);
    let mut i: usize = 0;
    assert(iv.take(0) =~= Seq::<Seq<char>>::empty());
    while i < ids.len()
        invariant
            i <= ids@.len(),
            present,
            own_manifest@ == manifest@,
            text_views(ids@) == iv,
            iv == entry_ids(entries@),
            first_bad_entry(iv.take(i as int)) is None,
        decreases ids@.len() - i,
    {
        assert(iv.take(i + 1).drop_last() =~= iv.take(i as int));
        assert(iv.take(i + 1).last() == ids@[i as int]@);
        assert(iv[i as int] == ids@[i as int]@);
        if !is_layer_id(ids[i].as_str()) {
            proof { lemma_first_bad_prefix(iv, i as int); }
            return Err(LayerError::BadId { manifest: own_manifest, id: copy_text(&ids[i]) });
        }
        let c = chars_of(ids[i].as_str());
        if contains_text(&ids, c.as_slice(), i) {
            proof { lemma_first_bad_prefix(iv, i as int); }
            return Err(LayerError::Duplicate { manifest: own_manifest, id: copy_text(&ids[i]) });
        }
        i = i + 1;
    }
    assert(iv.take(ids@.len() as int) =~= iv);
    let ghost sv = text_views(selected@);
    let mut w: usize = 0;
    assert(sv.take(0) =~= Seq::<Seq<char>>::empty());
    while w < selected.len()
        invariant
            w <= selected@.len(),
            present,
            own_manifest@ == manifest@,
            iv == entry_ids(entries@),
            first_bad_entry(iv) is None,
            sv == text_views(selected@),
            text_views(ids@) == iv,
            first_unknown(sv.take(w as int), iv) is None,
        decreases selected@.len() - w,
    {
        assert(sv.take(w + 1).drop_last() =~= sv.take(w as int));
        assert(sv.take(w + 1).last() == selected@[w as int]@);
        let c = chars_of(selected[w].as_str());
        if !contains_text(&ids, c.as_slice(), ids.len()) {
            assert(text_views(ids@).take(ids@.len() as int) =~= iv);
            proof { lemma_first_unknown_prefix(sv, iv, w as int); }
            let listed = if ids.len() == 0 {
                string_of(chars_of("none").as_slice())
            } else {
                let mut sorted = ids;
                sort_paths(&mut sorted);
                let l = joined(&sorted, ", ");
                assert(text_views(sorted@).to_multiset() == iv.to_multiset() && sorted_paths(text_views(sorted@))
                    && l@ == join(text_views(sorted@), ", "@));
                l
            };
            return Err(LayerError::Unknown { manifest: own_manifest, wanted: copy_text(&selected[w]), listed });
        }
        assert(text_views(ids@).take(ids@.len() as int) =~= iv);
        w = w + 1;
    }
    assert(sv.take(selected@.len() as int) =~= sv);
    let mut out: Vec<LayerEntry> = Vec::new();
    let ghost ch = Seq::<int>::empty();
    let mut k: usize = 0;
    assert(entries@.take(0) =~= Seq::<LayerEntry>::empty());
    while k < entries.len()
        invariant
            k <= entries@.len(),
            present,
            first_bad_entry(entry_ids(entries@)) is None,
            first_unknown(sv, entry_ids(entries@)) is None,
            sv == text_views(selected@),
            ch == chosen(entries@.take(k as int), sv),
            out@.len() == ch.len(),
            forall|m: int| 0 <= m < ch.len() ==> 0 <= #[trigger] ch[m] < k,
            forall|m: int| 0 <= m < ch.len() ==> layer_entry_views(out@)[m] == layer_entry_views(entries@)[#[trigger] ch[m]],
        decreases entries@.len() - k,
    {
        assert(entries@.take(k + 1).drop_last() =~= entries@.take(k as int));
        assert(entries@.take(k + 1).last() == entries@[k as int]);
        let e = &entries[k];
        let apply = if selected.len() == 0 {
            e.apply_by_default
        } else {
            let c = chars_of(e.id.as_str());
            assert(text_views(selected@).take(selected@.len() as int) =~= sv);
            contains_text(selected, c.as_slice(), selected.len())
        };
        if apply {
            let copy = LayerEntry { id: copy_text(&e.id), description: copy_text(&e.description), apply_by_default: e.apply_by_default };
            out.push(copy);
            proof {
                ch = ch.push(k as int);
                assert forall|m: int| 0 <= m < ch.len() implies layer_entry_views(out@)[m] == layer_entry_views(entries@)[#[trigger] ch[m]] by {
                    if m < ch.len() - 1 {
                        assert(out@[m] == old_out_at(out@, m));
                    }
                }
            }
        }
        k = k + 1;
    }
    assert(entries@.take(entries@.len() as int) =~= entries@);
    Ok(out)
}

spec fn old_out_at(v: Seq<LayerEntry>, m: int) -> LayerEntry {
    v[m]
}

proof fn lemma_first_bad_prefix(ids: Seq<Seq<char>>, i: int)
    requires
        0 <= i < ids.len(),
        first_bad_entry(ids.take(i)) is None,
        !is_layer_id_of(ids[i]) || ids.take(i).contains(ids[i]),
    ensures
        first_bad_entry(ids) == Some((i, is_layer_id_of(ids[i]))),
    decreases ids.len(),
{
    if i < ids.len() - 1 {
        assert(ids.drop_last().take(i) =~= ids.take(i));
        assert(ids.drop_last()[i] == ids[i]);
        lemma_first_bad_prefix(ids.drop_last(), i);
    } else {
        assert(ids.drop_last() =~= ids.take(i));
    }
}

proof fn lemma_first_unknown_prefix(sel: Seq<Seq<char>>, ids: Seq<Seq<char>>, w: int)
    requires
        0 <= w < sel.len(),
        first_unknown(sel.take(w), ids) is None,
        !ids.contains(sel[w]),
    ensures
        first_unknown(sel, ids) == Some(w),
    decreases sel.len(),
{
    if w < sel.len() - 1 {
        assert(sel.drop_last().take(w) =~= sel.take(w));
        assert(sel.drop_last()[w] == sel[w]);
        lemma_first_unknown_prefix(sel.drop_last(), ids, w);
    } else {
        assert(sel.drop_last() =~= sel.take(w));
    }
}

// ----- laws --------------------------------------------------------------------

/// The value an entry list holds under key `k`.
pub open spec fn entry_at(es: Seq<(Seq<char>, DocView)>, k: Seq<char>) -> Option<DocView> {
    match key_index(es, k) {
        Some(i) => Some(es[i].1),
        None => None,
    }
}

proof fn lemma_key_index_update(es: Seq<(Seq<char>, DocView)>, j: int, x: DocView, k: Seq<char>)
    requires
        0 <= j < es.len(),
        es[j].0 != k,
    ensures
        key_index(es.update(j, (es[j].0, x)), k) == key_index(es, k),
{
    let n = es.update(j, (es[j].0, x));
    lemma_key_index_from(es, k, 0);
    lemma_key_index_from(n, k, 0);
    assert forall|i: int| 0 <= i < es.len() implies (#[trigger] n[i]).0 == es[i].0 by {}
    match key_index(es, k) {
        Some(i) => {
            assert(n[i].0 == k);
            if let Some(m) = key_index(n, k) {
                assert(es[m].0 == k);
            }
        },
        None => {
            if let Some(m) = key_index(n, k) {
                assert(es[m].0 == k);
            }
        },
    }
}

proof fn lemma_key_index_push(es: Seq<(Seq<char>, DocView)>, e: (Seq<char>, DocView), k: Seq<char>)
    requires
        e.0 != k,
    ensures
        key_index(es.push(e), k) == key_index(es, k),
{
    let n = es.push(e);
    lemma_key_index_from(es, k, 0);
    lemma_key_index_from(n, k, 0);
    match key_index(es, k) {
        Some(i) => {
            assert(n[i] == es[i]);
            if let Some(m) = key_index(n, k) {
                if m < es.len() {
                    assert(n[m] == es[m]);
                }
            }
        },
        None => {
            if let Some(m) = key_index(n, k) {
                if m < es.len() {
                    assert(n[m] == es[m]);
                }
            }
        },
    }
}

proof fn lemma_step_keeps(target: Seq<(Seq<char>, DocView)>, pe: Seq<(Seq<char>, DocView)>, path: Seq<char>, k: Seq<char>)
    requires
        pe.len() > 0,
        pe.last().0 != k,
    ensures
        entry_at(merge_entries(target, pe, path).0, k) == entry_at(merge_entries(target, pe.drop_last(), path).0, k),
{
    let prev = merge_entries(target, pe.drop_last(), path);
    let name = pe.last().0;
    if !reserved(name, path) {
        match key_index(prev.0, name) {
            Some(j) => {
                lemma_key_index_from(prev.0, name, 0);
                let m = merge_view(prev.0[j].1, pe.last().1, child_path(path, name));
                assert(prev.0.update(j, (name, m.0)) == prev.0.update(j, (prev.0[j].0, m.0)));
                lemma_key_index_update(prev.0, j, m.0, k);
                let n = prev.0.update(j, (name, m.0));
                lemma_key_index_from(prev.0, k, 0);
                if let Some(i) = key_index(prev.0, k) {
                    assert(i != j);
                    assert(n[i] == prev.0[i]);
                }
            },
            None => {
                let m = merge_view(DocView::Null, pe.last().1, child_path(path, name));
                lemma_key_index_push(prev.0, (name, m.0), k);
                lemma_key_index_from(prev.0, k, 0);
                if let Some(i) = key_index(prev.0, k) {
                    assert(prev.0.push((name, m.0))[i] == prev.0[i]);
                }
            },
        }
    }
}

proof fn lemma_step_sets(target: Seq<(Seq<char>, DocView)>, pe: Seq<(Seq<char>, DocView)>, path: Seq<char>)
    requires
        pe.len() > 0,
        !reserved(pe.last().0, path),
        replaces_wholesale(pe.last().1),
    ensures
        entry_at(merge_entries(target, pe, path).0, pe.last().0) == Some(strip_view(pe.last().1)),
{
    let prev = merge_entries(target, pe.drop_last(), path);
    let name = pe.last().0;
    let v = pe.last().1;
    lemma_key_index_from(prev.0, name, 0);
    match key_index(prev.0, name) {
        Some(j) => {
            let m = merge_view(prev.0[j].1, v, child_path(path, name));
            assert(m.0 == strip_view(v));
            let n = prev.0.update(j, (name, m.0));
            assert(merge_entries(target, pe, path).0 == n);
            lemma_key_index_from(n, name, 0);
            assert(n[j].0 == name);
            match key_index(n, name) {
                Some(x) => {
                    if x < j {
                        assert(n[x] == prev.0[x]);
                    }
                    assert(x == j);
                },
                None => {},
            }
        },
        None => {
            let m = merge_view(DocView::Null, v, child_path(path, name));
            assert(m.0 == strip_view(v));
            let n = prev.0.push((name, m.0));
            assert(merge_entries(target, pe, path).0 == n);
            lemma_key_index_from(n, name, 0);
            assert(n[prev.0.len() as int].0 == name);
            match key_index(n, name) {
                Some(x) => {
                    if x < prev.0.len() {
                        assert(n[x] == prev.0[x]);
                    }
                },
                None => {},
            }
        },
    }
}

/// Merging leaves alone every key the patch does not name: the merged
/// entries hold the same value under it as before.
pub proof fn lemma_merge_keeps_untouched_keys(target: Seq<(Seq<char>, DocView)>, pe: Seq<(Seq<char>, DocView)>, path: Seq<char>, k: Seq<char>)
    requires
        forall|i: int| 0 <= i < pe.len() ==> (#[trigger] pe[i]).0 != k,
    ensures
        entry_at(merge_entries(target, pe, path).0, k) == entry_at(target, k),
    decreases pe.len(),
{
    if pe.len() > 0 {
        let init = pe.drop_last();
        assert forall|i: int| 0 <= i < init.len() implies (#[trigger] init[i]).0 != k by {
            assert(init[i] == pe[i]);
        }
        lemma_merge_keeps_untouched_keys(target, init, path, k);
        assert(pe[pe.len() - 1].0 != k);
        lemma_step_keeps(target, pe, path, k);
    }
}

/// A value the merge cannot descend into: anything but a mapping, or a
/// mapping that says `_op: replace`.
pub open spec fn replaces_wholesale(v: DocView) -> bool {
    !(v is Mapping) || text_at(v, "_op"@) == Some("replace"@)
}

/// A patch entry that replaces wholesale and whose key the patch names once
/// lands in the merged entries as the patch value with `_op` stripped:
/// scalars replace and sequences replace whole.
pub proof fn lemma_patch_value_wins(target: Seq<(Seq<char>, DocView)>, pe: Seq<(Seq<char>, DocView)>, path: Seq<char>, i: int)
    requires
        0 <= i < pe.len(),
        !reserved(pe[i].0, path),
        replaces_wholesale(pe[i].1),
        forall|j: int| 0 <= j < pe.len() && j != i ==> (#[trigger] pe[j]).0 != pe[i].0,
    ensures
        entry_at(merge_entries(target, pe, path).0, pe[i].0) == Some(strip_view(pe[i].1)),
    decreases pe.len(),
{
    let init = pe.drop_last();
    if i < pe.len() - 1 {
        assert(init[i] == pe[i]);
        assert forall|j: int| 0 <= j < init.len() && j != i implies (#[trigger] init[j]).0 != init[i].0 by {
            assert(init[j] == pe[j]);
        }
        lemma_patch_value_wins(target, init, path, i);
        assert(pe[pe.len() - 1].0 != pe[i].0);
        lemma_step_keeps(target, pe, path, pe[i].0);
    } else {
        lemma_step_sets(target, pe, path);
    }
}

/// A layer that rewrites only leaves it wrote itself raises no conflict.
pub proof fn lemma_own_leaves_raise_no_conflict(ls: Seq<(Seq<char>, Seq<char>)>, path: Seq<char>, layer: Seq<char>, doc: Seq<char>)
    requires
        forall|i: int| 0 <= i < ls.len() ==> (#[trigger] ls[i]).1 == layer,
    ensures
        conflicts_for(ls, path, layer, doc).len() == 0,
    decreases ls.len(),
{
    if ls.len() > 0 {
        let init = ls.drop_last();
        assert forall|i: int| 0 <= i < init.len() implies (#[trigger] init[i]).1 == layer by {
            assert(init[i] == ls[i]);
        }
        lemma_own_leaves_raise_no_conflict(init, path, layer, doc);
        assert(ls[ls.len() - 1].1 == layer);
    }
}

/// One layer writing any leaves, over leaves only it wrote, raises no
/// conflict and leaves every leaf its own.
pub proof fn lemma_one_layer_never_conflicts(ls: Seq<(Seq<char>, Seq<char>)>, cs: Seq<(Seq<char>, Seq<char>, Seq<char>, Seq<char>)>,
    writes: Seq<Seq<char>>, layer: Seq<char>, doc: Seq<char>)
    requires
        forall|i: int| 0 <= i < ls.len() ==> (#[trigger] ls[i]).1 == layer,
    ensures
        record_writes(ls, cs, writes, layer, doc).1 == cs,
        forall|i: int| 0 <= i < record_writes(ls, cs, writes, layer, doc).0.len()
            ==> (#[trigger] record_writes(ls, cs, writes, layer, doc).0[i]).1 == layer,
    decreases writes.len(),
{
    if writes.len() > 0 {
        lemma_one_layer_never_conflicts(ls, cs, writes.drop_last(), layer, doc);
        let p = record_writes(ls, cs, writes.drop_last(), layer, doc);
        lemma_own_leaves_raise_no_conflict(p.0, writes.last(), layer, doc);
        assert(p.1 + conflicts_for(p.0, writes.last(), layer, doc) =~= p.1);
        let n = set_leaf(p.0, writes.last(), layer);
        let j = lower_bound_from(p.0, writes.last(), 0);
        lemma_lower_bound_range(p.0, writes.last(), 0);
        assert forall|i: int| 0 <= i < n.len() implies (#[trigger] n[i]).1 == layer by {
            if 0 <= j < p.0.len() && p.0[j].0 == writes.last() {
                if i != j {
                    assert(n[i] == p.0[i]);
                }
            } else {
                if i < j {
                    assert(n[i] == p.0[i]);
                } else if i > j {
                    assert(n[i] == p.0[i - 1]);
                }
            }
        }
    }
}

/// A write by one layer to a leaf another layer wrote is a conflict naming
/// the document, the leaf and both layers.
pub proof fn lemma_two_layers_one_leaf_conflict(ls: Seq<(Seq<char>, Seq<char>)>, path: Seq<char>, first: Seq<char>,
    second: Seq<char>, doc: Seq<char>)
    requires
        first != second,
        exists|i: int| 0 <= i < ls.len() && ls[i] == (path, first),
    ensures
        conflicts_for(ls, path, second, doc).contains((doc, path, first, second)),
    decreases ls.len(),
{
    let i = choose|i: int| 0 <= i < ls.len() && ls[i] == (path, first);
    if i == ls.len() - 1 {
        let c = conflicts_for(ls.drop_last(), path, second, doc) + seq![(doc, path, first, second)];
        assert(c[c.len() - 1] == (doc, path, first, second));
    } else {
        assert(ls.drop_last()[i] == ls[i]);
        lemma_two_layers_one_leaf_conflict(ls.drop_last(), path, first, second, doc);
        let a = conflicts_for(ls.drop_last(), path, second, doc);
        let x = choose|x: int| 0 <= x < a.len() && a[x] == (doc, path, first, second);
        let c = conflicts_for(ls, path, second, doc);
        assert(c[x] == a[x]);
    }
}

/// An overlay document without a curation note is refused and changes
/// nothing.
pub proof fn lemma_unnoted_overlay_is_refused(s: SetView, layer: Seq<char>, path: Seq<char>, v: DocView)
    requires
        document_id_of(v) is Some,
        note_of(v) is None,
    ensures
        overlay_step(s, layer, path, v) == (s, Outcome::NoNote(layer, path, document_id_of(v)->0)),
{
}

/// A second base document with an id already filed is refused and changes
/// nothing.
pub proof fn lemma_duplicate_base_is_refused(s: SetView, path: Seq<char>, v: DocView)
    requires
        document_id_of(v) matches Some(id) && doc_index(s.docs, id) is Some,
    ensures
        overlay_base_refused(base_step(s, path, v), s),
{
}

pub open spec fn overlay_base_refused(r: (SetView, Outcome), s: SetView) -> bool {
    r.0 == s && r.1 is DeclaredTwice
}

/// Layers apply in manifest order, whatever order they were named in: the
/// chosen positions strictly ascend.
pub proof fn lemma_layers_keep_manifest_order(es: Seq<LayerEntry>, selected: Seq<Seq<char>>)
    ensures
        forall|a: int, b: int| 0 <= a < b < chosen(es, selected).len() ==> #[trigger] chosen(es, selected)[a] < #[trigger] chosen(es, selected)[b],
        forall|a: int| 0 <= a < chosen(es, selected).len() ==> 0 <= #[trigger] chosen(es, selected)[a] < es.len(),
    decreases es.len(),
{
    if es.len() > 0 {
        lemma_layers_keep_manifest_order(es.drop_last(), selected);
        let c0 = chosen(es.drop_last(), selected);
        let c = chosen(es, selected);
        if wanted(es.last().id@, es.last().apply_by_default, selected) {
            assert(c == c0.push((es.len() - 1) as int));
            assert forall|a: int, b: int| 0 <= a < b < c.len() implies #[trigger] c[a] < #[trigger] c[b] by {
                if b < c0.len() {
                    assert(c[a] == c0[a] && c[b] == c0[b]);
                } else {
                    assert(c[a] == c0[a]);
                }
            }
            assert forall|a: int| 0 <= a < c.len() implies 0 <= #[trigger] c[a] < es.len() by {
                if a < c0.len() {
                    assert(c[a] == c0[a]);
                }
            }
        }
    }
}

proof fn lemma_lower_bound_range(ls: Seq<(Seq<char>, Seq<char>)>, path: Seq<char>, i: int)
    requires
        0 <= i <= ls.len(),
    ensures
        i <= lower_bound_from(ls, path, i) <= ls.len(),
    decreases ls.len() - i,
{
    if i < ls.len() && lex_lt(ls[i].0, path) {
        lemma_lower_bound_range(ls, path, i + 1);
    }
}

impl Doc {
    /// The value under `key` when this is a mapping.
    pub fn get(&self, key: &str) -> (r: Option<&Doc>)
        ensures
            match r {
                Some(d) => lookup(doc_view(*self), key@) == Some(doc_view(*d)),
                None => lookup(doc_view(*self), key@) is None,
            },
    {
        value_at(self, key)
    }
}

/// One overlay layer a build applies, and the directory its documents sit in.
#[derive(Debug, Clone)]
pub struct Layer {
    pub id: String,
    pub description: String,
    pub directory: String,
}

/// The layer a chosen manifest entry names, under the overlays root.
pub fn layer_of(overlays_root: &str, entry: &LayerEntry) -> (l: Layer)
    ensures
        l.id@ == entry.id@,
        l.description@ == entry.description@,
        l.directory@ == crate::scan::join_text(overlays_root@, entry.id@),
{
    Layer {
        id: copy_text(&entry.id),
        description: copy_text(&entry.description),
        directory: crate::scan::join_path(overlays_root, entry.id.as_str()),
    }
}

} // verus!
