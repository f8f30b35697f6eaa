//! A parsed XDB document as the library reads it: its elements in document
//! order, each knowing its enclosing element, and the lookups every
//! extractor makes on them: a named child, the children of a name, a child's
//! trimmed text or `href`, and typed values read from that text.

use vstd::prelude::*;
use crate::script::{parse_i64, parse_i64_of, all_digits, digits_value, parse_u64, parse_u64_of};
use crate::text::{chars_of, string_of, eq_str, seq_eq, trim, trim_vec};
use crate::overlay::{Doc, DocView, doc_view, list_view, entries_view, lex_lt};
use crate::scan::{lex_le_exec};

verus! {

/// One element of a parsed document.
#[derive(Debug, Clone)]
pub struct XmlElement {
    /// The position of the enclosing element; the root element has none.
    pub parent: Option<usize>,
    /// The tag's local name.
    pub name: String,
    /// The attributes as (local name, value), in document order.
    pub attributes: Vec<(String, String)>,
    /// The element's text: its first child's, when that child is text.
    pub text: Option<String>,
    /// The text of each of its text children, in order.
    pub content: Vec<String>,
}

/// Elements in document order: the root first, every other element after
/// the element that encloses it.
pub open spec fn tree_order(es: Seq<XmlElement>) -> bool {
    &&& es.len() > 0
    &&& es[0].parent is None
    &&& forall|i: int| 1 <= i < es.len() ==> ((#[trigger] es[i]).parent matches Some(p) && p < i)
}

/// A parsed document: its elements in document order.
#[derive(Debug)]
pub struct XmlDoc {
    elements: Vec<XmlElement>,
}

impl View for XmlDoc {
    type V = Seq<XmlElement>;

    closed spec fn view(&self) -> Seq<XmlElement> {
        self.elements@
    }
}

/// Element `j` sits directly inside element `node`.
pub open spec fn is_child(es: Seq<XmlElement>, node: int, j: int) -> bool {
    0 <= j < es.len() && es[j].parent == Some(node as usize)
}

/// Element `j` is the first child of `node` named `name`.
pub open spec fn first_named(es: Seq<XmlElement>, node: int, name: Seq<char>, j: int) -> bool {
    &&& is_child(es, node, j)
    &&& es[j].name@ == name
    &&& forall|k: int| 0 <= k < j && is_child(es, node, k) ==> (#[trigger] es[k]).name@ != name
}

/// The first child of `node` named `name`.
pub open spec fn child_of(es: Seq<XmlElement>, node: int, name: Seq<char>) -> Option<int> {
    if exists|j: int| first_named(es, node, name, j) {
        Some(choose|j: int| first_named(es, node, name, j))
    } else {
        None
    }
}

/// The children of `node` named `name` among the first `upto` elements, in
/// order.
pub open spec fn named_children(es: Seq<XmlElement>, node: int, name: Seq<char>, upto: int) -> Seq<int>
    decreases upto,
{
    if upto <= 0 {
        Seq::empty()
    } else if is_child(es, node, upto - 1) && es[upto - 1].name@ == name {
        named_children(es, node, name, upto - 1).push(upto - 1)
    } else {
        named_children(es, node, name, upto - 1)
    }
}

pub proof fn lemma_named_children_bound(es: Seq<XmlElement>, n: int, name: Seq<char>, upto: int)
    ensures
        forall|i: int| 0 <= i < named_children(es, n, name, upto).len()
            ==> 0 <= #[trigger] named_children(es, n, name, upto)[i] < es.len(),
    decreases upto,
{
    if upto > 0 {
        lemma_named_children_bound(es, n, name, upto - 1);
        let prev = named_children(es, n, name, upto - 1);
        let all = named_children(es, n, name, upto);
        assert forall|i: int| 0 <= i < all.len() implies 0 <= #[trigger] all[i] < es.len() by {
            if i < prev.len() {
                assert(all[i] == prev[i]);
            }
        }
    }
}

/// Every child element of `node` among the first `upto` elements, in order.
pub open spec fn all_children(es: Seq<XmlElement>, node: int, upto: int) -> Seq<int>
    decreases upto,
{
    if upto <= 0 {
        Seq::empty()
    } else if is_child(es, node, upto - 1) {
        all_children(es, node, upto - 1).push(upto - 1)
    } else {
        all_children(es, node, upto - 1)
    }
}

/// The value of the first attribute named `name`.
pub open spec fn attr_of(attrs: Seq<(String, String)>, name: Seq<char>) -> Option<Seq<char>>
    decreases attrs.len(),
{
    if attrs.len() == 0 {
        None
    } else if attrs[0].0@ == name {
        Some(attrs[0].1@)
    } else {
        attr_of(attrs.drop_first(), name)
    }
}

/// A child's trimmed, non-empty text.
pub open spec fn text_of(es: Seq<XmlElement>, node: int, name: Seq<char>) -> Option<Seq<char>> {
    match child_of(es, node, name) {
        Some(c) => match es[c].text {
            Some(t) => if trim(t@).len() > 0 { Some(trim(t@)) } else { None },
            None => None,
        },
        None => None,
    }
}

/// A child's non-empty `href`.
pub open spec fn href_of(es: Seq<XmlElement>, node: int, name: Seq<char>) -> Option<Seq<char>> {
    match child_of(es, node, name) {
        Some(c) => match attr_of(es[c].attributes@, "href"@) {
            Some(h) => if h.len() > 0 { Some(h) } else { None },
            None => None,
        },
        None => None,
    }
}

/// `str::parse::<bool>`.
pub open spec fn parse_bool_of(s: Seq<char>) -> Option<bool> {
    if s == "true"@ { Some(true) } else if s == "false"@ { Some(false) } else { None }
}

pub open spec fn opt_chars(o: Option<Vec<char>>) -> Option<Seq<char>> {
    match o {
        Some(v) => Some(v@),
        None => None,
    }
}

pub open spec fn opt_string(o: Option<String>) -> Option<Seq<char>> {
    match o {
        Some(v) => Some(v@),
        None => None,
    }
}

pub fn attr_lookup(attrs: &Vec<(String, String)>, name: &str) -> (r: Option<Vec<char>>)
    ensures
        opt_chars(r) == attr_of(attrs@, name@),
{
    let mut i: usize = 0;
    assert(attrs@.skip(0) =~= attrs@);
    while i < attrs.len()
        invariant
            i <= attrs@.len(),
            attr_of(attrs@.skip(i as int), name@) == attr_of(attrs@, name@),
        decreases attrs@.len() - i,
    {
        assert(attrs@.skip(i as int)[0] == attrs@[i as int]);
        if eq_str(chars_of(attrs[i].0.as_str()).as_slice(), name) {
            return Some(chars_of(attrs[i].1.as_str()));
        }
        assert(attrs@.skip(i as int).drop_first() =~= attrs@.skip(i + 1));
        i = i + 1;
    }
    None
}

impl XmlDoc {
    /// Takes elements in document order; `None` when they are not.
    pub fn new(elements: Vec<XmlElement>) -> (r: Option<XmlDoc>)
        ensures
            match r {
                Some(d) => d@ == elements@,
                None => !tree_order(elements@),
            },
    {
        if elements.len() == 0 {
            return None;
        }
        if elements[0].parent.is_some() {
            return None;
        }
        let mut i: usize = 1;
        while i < elements.len()
            invariant
                1 <= i <= elements@.len(),
                elements@[0].parent is None,
                forall|k: int| 1 <= k < i ==> ((#[trigger] elements@[k]).parent matches Some(p) && p < k),
            decreases elements@.len() - i,
        {
            match elements[i].parent {
                Some(p) => if p >= i {
                    return None;
                },
                None => return None,
            }
            i = i + 1;
        }
        Some(XmlDoc { elements })
    }

    /// The number of elements, which is never zero.
    pub fn len(&self) -> (n: usize)
        ensures
            n == self@.len(),
            tree_order(self@),
    {
        proof { use_type_invariant(self); }
        self.elements.len()
    }

    /// Element `i`.
    pub fn element(&self, i: usize) -> (e: &XmlElement)
        requires
            i < self@.len(),
        ensures
            *e == self@[i as int],
    {
        &self.elements[i]
    }

    #[verifier::type_invariant]
    spec fn order(self) -> bool {
        tree_order(self.elements@)
    }

    /// The first child of `node` named `name`.
    pub fn child(&self, node: usize, name: &str) -> (r: Option<usize>)
        ensures
            match r {
                Some(j) => child_of(self@, node as int, name@) == Some(j as int),
                None => child_of(self@, node as int, name@) is None,
            },
    {
        let n = chars_of(name);
        let mut j: usize = 0;
        while j < self.elements.len()
            invariant
                j <= self@.len(),
                n@ == name@,
                forall|k: int| 0 <= k < j && is_child(self@, node as int, k) ==> (#[trigger] self@[k]).name@ != name@,
            decreases self@.len() - j,
        {
            if self.elements[j].parent == Some(node) && eq_str(n.as_slice(), self.elements[j].name.as_str()) {
                assert(first_named(self@, node as int, name@, j as int));
                proof {
                    let c = choose|c: int| first_named(self@, node as int, name@, c);
                    if c < j {
                        assert(self@[c].name@ != name@);
                    }
                    if j < c {
                        assert(self@[j as int].name@ != name@);
                    }
                }
                return Some(j);
            }
            j = j + 1;
        }
        None
    }

    /// The children of `node` named `name`, in order.
    pub fn children(&self, node: usize, name: &str) -> (r: Vec<usize>)
        ensures
            r@.map_values(|j: usize| j as int) == named_children(self@, node as int, name@, self@.len() as int),
    {
        let n = chars_of(name);
        let mut out: Vec<usize> = Vec::new();
        let mut j: usize = 0;
        while j < self.elements.len()
            invariant
                j <= self@.len(),
                n@ == name@,
                out@.map_values(|j: usize| j as int) == named_children(self@, node as int, name@, j as int),
            decreases self@.len() - j,
        {
            let ghost before = out@;
            if self.elements[j].parent == Some(node) && eq_str(n.as_slice(), self.elements[j].name.as_str()) {
                out.push(j);
                assert(out@.map_values(|j: usize| j as int) =~= before.map_values(|j: usize| j as int).push(j as int));
            }
            j = j + 1;
        }
        out
    }

    /// Every child element of `node`, in order.
    pub fn child_elements(&self, node: usize) -> (r: Vec<usize>)
        ensures
            r@.map_values(|j: usize| j as int) == all_children(self@, node as int, self@.len() as int),
    {
        let mut out: Vec<usize> = Vec::new();
        let mut j: usize = 0;
        while j < self.elements.len()
            invariant
                j <= self@.len(),
                out@.map_values(|j: usize| j as int) == all_children(self@, node as int, j as int),
            decreases self@.len() - j,
        {
            let ghost before = out@;
            if self.elements[j].parent == Some(node) {
                out.push(j);
                assert(out@.map_values(|j: usize| j as int) =~= before.map_values(|j: usize| j as int).push(j as int));
            }
            j = j + 1;
        }
        out
    }

    /// The trimmed, non-empty text of `node`'s first child named `name`.
    pub fn text(&self, node: usize, name: &str) -> (r: Option<String>)
        ensures
            opt_string(r) == text_of(self@, node as int, name@),
    {
        match self.child(node, name) {
            Some(c) => match &self.elements[c].text {
                Some(t) => {
                    let trimmed = trim_vec(chars_of(t.as_str()).as_slice());
                    if trimmed.len() > 0 {
                        Some(string_of(trimmed.as_slice()))
                    } else {
                        None
                    }
                },
                None => None,
            },
            None => None,
        }
    }

    /// The non-empty `href` of `node`'s first child named `name`.
    pub fn href(&self, node: usize, name: &str) -> (r: Option<String>)
        ensures
            opt_string(r) == href_of(self@, node as int, name@),
    {
        match self.child(node, name) {
            Some(c) => match attr_lookup(&self.elements[c].attributes, "href") {
                Some(h) => if h.len() > 0 {
                    Some(string_of(h.as_slice()))
                } else {
                    None
                },
                None => None,
            },
            None => None,
        }
    }

    /// The value of `node`'s own attribute `name`.
    pub fn attribute(&self, node: usize, name: &str) -> (r: Option<String>)
        requires
            node < self@.len(),
        ensures
            opt_string(r) == attr_of(self@[node as int].attributes@, name@),
    {
        match attr_lookup(&self.elements[node].attributes, name) {
            Some(v) => Some(string_of(v.as_slice())),
            None => None,
        }
    }

    /// A child's text read as an `i64`.
    pub fn i64_value(&self, node: usize, name: &str) -> (r: Option<i64>)
        ensures
            r == match text_of(self@, node as int, name@) {
                Some(t) => parse_i64_of(t),
                None => None,
            },
    {
        match self.text(node, name) {
            Some(t) => parse_i64(chars_of(t.as_str()).as_slice()),
            None => None,
        }
    }

    /// A child's text read as a `u64`.
    pub fn u64_value(&self, node: usize, name: &str) -> (r: Option<u64>)
        ensures
            r == match text_of(self@, node as int, name@) {
                Some(t) => parse_u64_of(t),
                None => None,
            },
    {
        match self.text(node, name) {
            Some(t) => parse_u64(chars_of(t.as_str()).as_slice()),
            None => None,
        }
    }

    /// A child's text read as a `bool`.
    pub fn bool_value(&self, node: usize, name: &str) -> (r: Option<bool>)
        ensures
            r == match text_of(self@, node as int, name@) {
                Some(t) => parse_bool_of(t),
                None => None,
            },
    {
        match self.text(node, name) {
            Some(t) => {
                let c = chars_of(t.as_str());
                if eq_str(c.as_slice(), "true") {
                    Some(true)
                } else if eq_str(c.as_slice(), "false") {
                    Some(false)
                } else {
                    None
                }
            },
            None => None,
        }
    }

    /// The `Header/resourceId` of `root`.
    pub fn resource_id(&self, root: usize) -> (r: Option<u64>)
        ensures
            r == match child_of(self@, root as int, "Header"@) {
                Some(h) => match text_of(self@, h, "resourceId"@) {
                    Some(t) => parse_u64_of(t),
                    None => None,
                },
                None => None,
            },
    {
        match self.child(root, "Header") {
            Some(h) => self.u64_value(h, "resourceId"),
            None => None,
        }
    }

    /// The `href` on `Header/Prototype`, the XDB inheritance edge.
    pub fn prototype_href(&self, root: usize) -> (r: Option<String>)
        ensures
            opt_string(r) == match child_of(self@, root as int, "Header"@) {
                Some(h) => href_of(self@, h, "Prototype"@),
                None => None,
            },
    {
        match self.child(root, "Header") {
            Some(h) => self.href(h, "Prototype"),
            None => None,
        }
    }
}

// ----- an element as a value ------------------------------------------------------------

/// `m` with key `k` set to `v`: replaced where `k` is, inserted in key order
/// where it is not, as a sorted map does.
pub open spec fn put(m: Seq<(Seq<char>, DocView)>, k: Seq<char>, v: DocView) -> Seq<(Seq<char>, DocView)>
    decreases m.len(),
{
    if m.len() == 0 {
        seq![(k, v)]
    } else if m.last().0 == k {
        m.drop_last().push((k, v))
    } else if lex_lt(m.last().0, k) {
        m.push((k, v))
    } else {
        put(m.drop_last(), k, v).push(m.last())
    }
}

fn key_after(a: &String, k: &[char]) -> (r: bool)
    ensures
        r == (a@ != k@ && !lex_lt(a@, k@)),
{
    let c = chars_of(a.as_str());
    !seq_eq(c.as_slice(), k) && !(lex_le_exec(c.as_slice(), k) && !seq_eq(c.as_slice(), k))
}

/// Sets key `k` to `v` in a key-ordered entry list.
pub fn put_entry(m: &mut Vec<(String, Doc)>, k: &[char], v: Doc)
    ensures
        entries_view(final(m)@) == put(entries_view(old(m)@), k@, doc_view(v)),
{
    let ghost s0 = entries_view(m@);
    let ghost vv = doc_view(v);
    let mut j: usize = m.len();
    assert(s0.take(j as int) =~= s0);
    assert(s0.skip(j as int) =~= Seq::<(Seq<char>, DocView)>::empty());
    while j > 0 && key_after(&m[j - 1].0, k)
        invariant
            j <= m@.len(),
            s0 == entries_view(m@),
            s0.len() == m@.len(),
            put(s0, k@, vv) == put(s0.take(j as int), k@, vv) + s0.skip(j as int),
        decreases j,
    {
        assert(s0[j - 1].0 == m@[j - 1].0@);
        assert(s0.take(j as int).last() == s0[j - 1]);
        assert(s0.take(j as int).drop_last() =~= s0.take(j - 1));
        assert(s0.skip(j - 1) =~= seq![s0[j - 1]] + s0.skip(j as int));
        assert(put(s0.take(j - 1), k@, vv).push(s0[j - 1]) + s0.skip(j as int)
            =~= put(s0.take(j - 1), k@, vv) + s0.skip(j - 1));
        j = j - 1;
    }
    let key = string_of(k);
    if j > 0 && eq_str(k, m[j - 1].0.as_str()) {
        assert(s0[j - 1].0 == m@[j - 1].0@);
        assert(s0.take(j as int).last() == s0[j - 1]);
        assert(s0.take(j as int).drop_last() =~= s0.take(j - 1));
        let _ = m.remove(j - 1);
        m.insert(j - 1, (key, v));
        assert(entries_view(m@) =~= s0.take(j - 1).push((k@, vv)) + s0.skip(j as int));
    } else {
        proof {
            if j > 0 {
                assert(s0[j - 1].0 == m@[j - 1].0@);
                assert(s0.take(j as int).last() == s0[j - 1]);
                assert(put(s0.take(j as int), k@, vv) == s0.take(j as int).push((k@, vv)));
            } else {
                assert(s0.take(0) =~= Seq::<(Seq<char>, DocView)>::empty());
            }
        }
        m.insert(j, (key, v));
        assert(entries_view(m@) =~= s0.take(j as int).push((k@, vv)) + s0.skip(j as int));
    }
}

/// The trimmed text children, run together.
pub open spec fn content_of(ts: Seq<String>) -> Seq<char>
    decreases ts.len(),
{
    if ts.len() == 0 {
        Seq::empty()
    } else {
        content_of(ts.drop_last()) + trim(ts.last()@)
    }
}

/// An element's attributes as `@name` entries, set in order.
pub open spec fn attr_entries(m: Seq<(Seq<char>, DocView)>, attrs: Seq<(String, String)>) -> Seq<(Seq<char>, DocView)>
    decreases attrs.len(),
{
    if attrs.len() == 0 {
        m
    } else {
        put(attr_entries(m, attrs.drop_last()), "@"@ + attrs.last().0@, DocView::Text(attrs.last().1@))
    }
}

/// The child at position `i` of `kids` is the first of its name.
pub open spec fn first_of_name(es: Seq<XmlElement>, kids: Seq<int>, i: int) -> bool {
    forall|j: int| 0 <= j < i ==> (#[trigger] es[kids[j]]).name@ != es[kids[i]].name@
}

/// An element as a value: text alone when it has neither children nor
/// attributes, else a mapping of its `@attributes`, its `_text`, and its
/// children grouped by name, a group of one being the child itself.
pub open spec fn node_value_of(es: Seq<XmlElement>, n: int) -> DocView
    decreases es.len() - n, 2int, 0int,
{
    let kids = all_children(es, n, es.len() as int);
    let attrs = es[n].attributes@;
    let content = content_of(es[n].content@);
    if kids.len() == 0 && attrs.len() == 0 {
        if content.len() == 0 { DocView::Null } else { DocView::Text(content) }
    } else {
        let m1 = attr_entries(Seq::empty(), attrs);
        let m2 = if content.len() > 0 { put(m1, "_text"@, DocView::Text(content)) } else { m1 };
        DocView::Mapping(fold_groups(es, n, m2, kids, kids.len() as int))
    }
}

/// The values of the first `upto` of `kids` named `name`, in order.
pub open spec fn group_list(es: Seq<XmlElement>, n: int, kids: Seq<int>, name: Seq<char>, upto: int) -> Seq<DocView>
    decreases es.len() - n, 0int, upto,
{
    if upto <= 0 || upto > kids.len() {
        Seq::empty()
    } else {
        let k = kids[upto - 1];
        let rest = group_list(es, n, kids, name, upto - 1);
        if n < k < es.len() && es[k].name@ == name {
            rest.push(node_value_of(es, k))
        } else {
            rest
        }
    }
}

/// The value of the children named `name`: the child alone, or the list.
pub open spec fn group_value(es: Seq<XmlElement>, n: int, kids: Seq<int>, name: Seq<char>) -> DocView
    decreases es.len() - n, 1int, 0int,
{
    let vs = group_list(es, n, kids, name, kids.len() as int);
    if vs.len() == 1 { vs[0] } else { DocView::List(vs) }
}

/// `m` with each group of the first `upto` of `kids` set, in order of first
/// appearance.
pub open spec fn fold_groups(es: Seq<XmlElement>, n: int, m: Seq<(Seq<char>, DocView)>, kids: Seq<int>, upto: int)
    -> Seq<(Seq<char>, DocView)>
    decreases es.len() - n, 1int, upto,
{
    if upto <= 0 || upto > kids.len() {
        m
    } else {
        let m2 = fold_groups(es, n, m, kids, upto - 1);
        if first_of_name(es, kids, upto - 1) {
            put(m2, es[kids[upto - 1]].name@, group_value(es, n, kids, es[kids[upto - 1]].name@))
        } else {
            m2
        }
    }
}

pub proof fn lemma_all_children(es: Seq<XmlElement>, n: int, upto: int)
    ensures
        forall|i: int| 0 <= i < all_children(es, n, upto).len() ==> is_child(es, n, #[trigger] all_children(es, n, upto)[i])
            && all_children(es, n, upto)[i] < upto,
    decreases upto,
{
    if upto > 0 {
        lemma_all_children(es, n, upto - 1);
        let prev = all_children(es, n, upto - 1);
        let all = all_children(es, n, upto);
        assert forall|i: int| 0 <= i < all.len() implies is_child(es, n, #[trigger] all[i]) && all[i] < upto by {
            if i < prev.len() {
                assert(all[i] == prev[i]);
            }
        }
    }
}

pub fn content_text(ts: &Vec<String>) -> (out: Vec<char>)
    ensures
        out@ == content_of(ts@),
{
    let mut out: Vec<char> = Vec::new();
    let mut i: usize = 0;
    while i < ts.len()
        invariant
            i <= ts@.len(),
            out@ == content_of(ts@.take(i as int)),
        decreases ts@.len() - i,
    {
        assert(ts@.take(i + 1).drop_last() =~= ts@.take(i as int));
        let t = trim_vec(chars_of(ts[i].as_str()).as_slice());
        let mut k: usize = 0;
        let ghost base = out@;
        while k < t.len()
            invariant
                k <= t@.len(),
                out@ == base + t@.take(k as int),
            decreases t@.len() - k,
        {
            out.push(t[k]);
            assert(out@ =~= base + t@.take(k + 1));
            k = k + 1;
        }
        assert(t@.take(t@.len() as int) =~= t@);
        i = i + 1;
    }
    assert(ts@.take(ts@.len() as int) =~= ts@);
    out
}

impl XmlDoc {
    /// Element `n` as a value.
    pub fn node_value(&self, n: usize) -> (r: Doc)
        requires
            n < self@.len(),
        ensures
            doc_view(r) == node_value_of(self@, n as int),
        decreases self@.len() - n, 2int,
    {
        proof { use_type_invariant(self); }
        let kids = self.child_elements(n);
        let ghost kv = all_children(self@, n as int, self@.len() as int);
        proof { lemma_all_children(self@, n as int, self@.len() as int); }
        let e = &self.elements[n];
        let content = content_text(&e.content);
        if kids.len() == 0 && e.attributes.len() == 0 {
            if content.len() == 0 {
                return Doc::Null;
            }
            return Doc::Text(string_of(content.as_slice()));
        }
        let mut m: Vec<(String, Doc)> = Vec::new();
        let attrs = &e.attributes;
        let mut i: usize = 0;
        assert(entries_view(m@) =~= Seq::<(Seq<char>, DocView)>::empty());
        assert(attrs@.take(0) =~= Seq::<(String, String)>::empty());
        while i < attrs.len()
            invariant
                i <= attrs@.len(),
                entries_view(m@) == attr_entries(Seq::empty(), attrs@.take(i as int)),
            decreases attrs@.len() - i,
        {
            assert(attrs@.take(i + 1).drop_last() =~= attrs@.take(i as int));
            let mut key = chars_of("@");
            let name = chars_of(attrs[i].0.as_str());
            let mut c: usize = 0;
            let ghost head = key@;
            while c < name.len()
                invariant
                    c <= name@.len(),
                    key@ == head + name@.take(c as int),
                decreases name@.len() - c,
            {
                key.push(name[c]);
                assert(key@ =~= head + name@.take(c + 1));
                c = c + 1;
            }
            assert(name@.take(name@.len() as int) =~= name@);
            let value = Doc::Text(string_of(chars_of(attrs[i].1.as_str()).as_slice()));
            put_entry(&mut m, key.as_slice(), value);
            i = i + 1;
        }
        assert(attrs@.take(attrs@.len() as int) =~= attrs@);
        if content.len() > 0 {
            put_entry(&mut m, chars_of("_text").as_slice(), Doc::Text(string_of(content.as_slice())));
        }
        assert forall|x: int| 0 <= x < kids@.len() implies is_child(self@, n as int, #[trigger] kids@[x] as int) by {
            assert(kv[x] == kids@[x] as int);
        }
        let m = self.fold_kids(n, &kids, m);
        Doc::Mapping(m)
    }

    /// `m` with each group of `kids` set, in order of first appearance.
    fn fold_kids(&self, n: usize, kids: &Vec<usize>, m: Vec<(String, Doc)>) -> (out: Vec<(String, Doc)>)
        requires
            n < self@.len(),
            forall|x: int| 0 <= x < kids@.len() ==> is_child(self@, n as int, #[trigger] kids@[x] as int),
        ensures
            entries_view(out@) == fold_groups(self@, n as int, entries_view(m@), kids@.map_values(|j: usize| j as int),
                kids@.len() as int),
        decreases self@.len() - n, 1int,
    {
        proof { use_type_invariant(self); }
        let ghost kv = kids@.map_values(|j: usize| j as int);
        assert forall|x: int| 0 <= x < kv.len() implies is_child(self@, n as int, #[trigger] kv[x]) && kv[x] < self@.len() by {
            assert(kv[x] == kids@[x] as int);
        }
        let ghost m2 = entries_view(m@);
        let mut m = m;
        let mut g: usize = 0;
        while g < kids.len()
            invariant
                g <= kids@.len(),
                kids@.map_values(|j: usize| j as int) == kv,
                forall|x: int| 0 <= x < kids@.len() ==> is_child(self@, n as int, #[trigger] kids@[x] as int),
                forall|x: int| 0 <= x < kv.len() ==> is_child(self@, n as int, #[trigger] kv[x]) && kv[x] < self@.len(),
                n < self@.len(),
                tree_order(self@),
                entries_view(m@) == fold_groups(self@, n as int, m2, kv, g as int),
            decreases kids@.len() - g,
        {
            assert(kv[g as int] == kids@[g as int] as int);
            let k = kids[g];
            let name = chars_of(self.elements[k].name.as_str());
            let mut first = true;
            let mut j: usize = 0;
            while j < g
                invariant
                    j <= g,
                    g < kids@.len(),
                    kids@.map_values(|j: usize| j as int) == kv,
                    forall|x: int| 0 <= x < kv.len() ==> is_child(self@, n as int, #[trigger] kv[x]) && kv[x] < self@.len(),
                    name@ == self@[kv[g as int]].name@,
                    first == (forall|x: int| 0 <= x < j ==> (#[trigger] self@[kv[x]]).name@ != self@[kv[g as int]].name@),
                decreases g - j,
            {
                assert(kv[j as int] == kids@[j as int] as int);
                assert(is_child(self@, n as int, kv[j as int]));
                if eq_str(name.as_slice(), self.elements[kids[j]].name.as_str()) {
                    first = false;
                }
                j = j + 1;
            }
            if first {
                let v = self.group_value(n, kids, name.as_slice());
                put_entry(&mut m, name.as_slice(), v);
            }
            g = g + 1;
        }
        m
    }

    fn group_value(&self, n: usize, kids: &Vec<usize>, name: &[char]) -> (r: Doc)
        requires
            n < self@.len(),
            forall|x: int| 0 <= x < kids@.len() ==> is_child(self@, n as int, #[trigger] kids@[x] as int),
        ensures
            doc_view(r) == group_value(self@, n as int, kids@.map_values(|j: usize| j as int), name@),
        decreases self@.len() - n, 0int,
    {
        proof { use_type_invariant(self); }
        let ghost kv = kids@.map_values(|j: usize| j as int);
        assert forall|x: int| 0 <= x < kv.len() implies is_child(self@, n as int, #[trigger] kv[x]) && kv[x] < self@.len() by {
            assert(kv[x] == kids@[x] as int);
        }
        let mut vals: Vec<Doc> = Vec::new();
        let mut i: usize = 0;
        assert(list_view(vals@) =~= Seq::<DocView>::empty());
        while i < kids.len()
            invariant
                i <= kids@.len(),
                n < self@.len(),
                tree_order(self@),
                kids@.map_values(|j: usize| j as int) == kv,
                forall|x: int| 0 <= x < kv.len() ==> is_child(self@, n as int, #[trigger] kv[x]) && kv[x] < self@.len(),
                list_view(vals@) == group_list(self@, n as int, kv, name@, i as int),
            decreases kids@.len() - i,
        {
            assert(kv[i as int] == kids@[i as int] as int);
            let k = kids[i];
            assert(is_child(self@, n as int, k as int));
            assert(n < k);
            if eq_str(name, self.elements[k].name.as_str()) {
                let v = self.node_value(k);
                let ghost before = list_view(vals@);
                vals.push(v);
                assert(list_view(vals@) =~= before.push(doc_view(v)));
            }
            i = i + 1;
        }
        if vals.len() == 1 {
            let v = vals.remove(0);
            v
        } else {
            Doc::List(vals)
        }
    }
}

pub open spec fn str_views(v: Seq<&str>) -> Seq<Seq<char>> {
    v.map_values(|s: &str| s@)
}

/// The child elements of `n` among the first `upto` whose names are not
/// excluded, in order.
pub open spec fn kept_children(es: Seq<XmlElement>, n: int, excluded: Seq<Seq<char>>, upto: int) -> Seq<int>
    decreases upto,
{
    if upto <= 0 {
        Seq::empty()
    } else if is_child(es, n, upto - 1) && !excluded.contains(es[upto - 1].name@) {
        kept_children(es, n, excluded, upto - 1).push(upto - 1)
    } else {
        kept_children(es, n, excluded, upto - 1)
    }
}

/// The fields of element `n` no extractor maps, by tag: each the child's
/// value, or the list of them where a tag repeats; sorted by tag.
pub open spec fn extra_fields_of(es: Seq<XmlElement>, n: int, excluded: Seq<Seq<char>>) -> Seq<(Seq<char>, DocView)> {
    let kept = kept_children(es, n, excluded, es.len() as int);
    fold_groups(es, n, Seq::empty(), kept, kept.len() as int)
}

proof fn lemma_put_keys(m: Seq<(Seq<char>, DocView)>, k: Seq<char>, v: DocView)
    ensures
        forall|i: int| 0 <= i < put(m, k, v).len() ==> (#[trigger] put(m, k, v)[i]).0 == k
            || exists|j: int| 0 <= j < m.len() && (#[trigger] m[j]).0 == put(m, k, v)[i].0,
    decreases m.len(),
{
    let r = put(m, k, v);
    if m.len() > 0 {
        if m.last().0 == k {
            assert forall|i: int| 0 <= i < r.len() implies (#[trigger] r[i]).0 == k
                || exists|j: int| 0 <= j < m.len() && (#[trigger] m[j]).0 == r[i].0 by {
                if i < m.len() - 1 {
                    assert(r[i] == m[i]);
                }
            }
        } else if lex_lt(m.last().0, k) {
            assert forall|i: int| 0 <= i < r.len() implies (#[trigger] r[i]).0 == k
                || exists|j: int| 0 <= j < m.len() && (#[trigger] m[j]).0 == r[i].0 by {
                if i < m.len() {
                    assert(r[i] == m[i]);
                }
            }
        } else {
            let t = m.drop_last();
            lemma_put_keys(t, k, v);
            let q = put(t, k, v);
            assert forall|i: int| 0 <= i < r.len() implies (#[trigger] r[i]).0 == k
                || exists|j: int| 0 <= j < m.len() && (#[trigger] m[j]).0 == r[i].0 by {
                if i < q.len() {
                    assert(r[i] == q[i]);
                    if q[i].0 != k {
                        let j = choose|j: int| 0 <= j < t.len() && (#[trigger] t[j]).0 == q[i].0;
                        assert(m[j] == t[j]);
                    }
                } else {
                    assert(r[i] == m[m.len() - 1]);
                }
            }
        }
    }
}

proof fn lemma_fold_keys(es: Seq<XmlElement>, n: int, m: Seq<(Seq<char>, DocView)>, kids: Seq<int>, upto: int)
    ensures
        forall|i: int| #![trigger fold_groups(es, n, m, kids, upto)[i]] 0 <= i < fold_groups(es, n, m, kids, upto).len()
            ==> (exists|j: int| 0 <= j < m.len() && (#[trigger] m[j]).0 == fold_groups(es, n, m, kids, upto)[i].0)
            || (exists|j: int| 0 <= j < kids.len() && es[#[trigger] kids[j]].name@ == fold_groups(es, n, m, kids, upto)[i].0),
    decreases upto,
{
    if !(upto <= 0 || upto > kids.len()) {
        lemma_fold_keys(es, n, m, kids, upto - 1);
        let m2 = fold_groups(es, n, m, kids, upto - 1);
        let r = fold_groups(es, n, m, kids, upto);
        if first_of_name(es, kids, upto - 1) {
            let k = es[kids[upto - 1]].name@;
            lemma_put_keys(m2, k, group_value(es, n, kids, k));
            assert forall|i: int| #![trigger r[i]] 0 <= i < r.len() implies
                (exists|j: int| 0 <= j < m.len() && (#[trigger] m[j]).0 == r[i].0)
                || (exists|j: int| 0 <= j < kids.len() && es[#[trigger] kids[j]].name@ == r[i].0) by {
                if r[i].0 == k {
                    assert(es[kids[upto - 1]].name@ == r[i].0);
                } else {
                    let j = choose|j: int| 0 <= j < m2.len() && (#[trigger] m2[j]).0 == r[i].0;
                    assert(m2[j].0 == r[i].0);
                }
            }
        }
    }
}

proof fn lemma_kept_unexcluded(es: Seq<XmlElement>, n: int, excluded: Seq<Seq<char>>, upto: int)
    ensures
        forall|i: int| 0 <= i < kept_children(es, n, excluded, upto).len()
            ==> !excluded.contains(es[#[trigger] kept_children(es, n, excluded, upto)[i]].name@),
    decreases upto,
{
    if upto > 0 {
        lemma_kept_unexcluded(es, n, excluded, upto - 1);
        let prev = kept_children(es, n, excluded, upto - 1);
        let all = kept_children(es, n, excluded, upto);
        assert forall|i: int| 0 <= i < all.len() implies !excluded.contains(es[#[trigger] all[i]].name@) by {
            if i < prev.len() {
                assert(all[i] == prev[i]);
            }
        }
    }
}

/// The extra fields kept for element `n` never repeat a field its
/// extractor maps: each is named after a child of `n` whose tag is not
/// excluded.
pub proof fn lemma_extra_fields_are_unmapped_children(es: Seq<XmlElement>, n: int, excluded: Seq<Seq<char>>)
    ensures
        forall|i: int| 0 <= i < extra_fields_of(es, n, excluded).len()
            ==> !excluded.contains((#[trigger] extra_fields_of(es, n, excluded)[i]).0)
                && exists|c: int| #[trigger] is_child(es, n, c) && es[c].name@ == extra_fields_of(es, n, excluded)[i].0,
{
    let kept = kept_children(es, n, excluded, es.len() as int);
    let r = extra_fields_of(es, n, excluded);
    lemma_fold_keys(es, n, Seq::empty(), kept, kept.len() as int);
    lemma_kept_unexcluded(es, n, excluded, es.len() as int);
    lemma_kept_children(es, n, excluded, es.len() as int);
    assert forall|i: int| 0 <= i < r.len() implies !excluded.contains((#[trigger] r[i]).0)
        && exists|c: int| #[trigger] is_child(es, n, c) && es[c].name@ == r[i].0 by {
        let j = choose|j: int| 0 <= j < kept.len() && es[#[trigger] kept[j]].name@ == r[i].0;
        assert(is_child(es, n, kept[j]));
    }
}

proof fn lemma_kept_children(es: Seq<XmlElement>, n: int, excluded: Seq<Seq<char>>, upto: int)
    ensures
        forall|i: int| 0 <= i < kept_children(es, n, excluded, upto).len()
            ==> is_child(es, n, #[trigger] kept_children(es, n, excluded, upto)[i]),
    decreases upto,
{
    if upto > 0 {
        lemma_kept_children(es, n, excluded, upto - 1);
        let prev = kept_children(es, n, excluded, upto - 1);
        let all = kept_children(es, n, excluded, upto);
        assert forall|i: int| 0 <= i < all.len() implies is_child(es, n, #[trigger] all[i]) by {
            if i < prev.len() {
                assert(all[i] == prev[i]);
            }
        }
    }
}

fn excluded_name(excluded: &[&str], name: &str) -> (r: bool)
    ensures
        r == str_views(excluded@).contains(name@),
{
    let mut i: usize = 0;
    while i < excluded.len()
        invariant
            i <= excluded@.len(),
            forall|k: int| 0 <= k < i ==> (#[trigger] excluded@[k])@ != name@,
        decreases excluded@.len() - i,
    {
        if eq_str(chars_of(excluded[i]).as_slice(), name) {
            assert(str_views(excluded@)[i as int] == name@);
            return true;
        }
        i = i + 1;
    }
    assert forall|k: int| 0 <= k < str_views(excluded@).len() implies str_views(excluded@)[k] != name@ by {
        assert(str_views(excluded@)[k] == excluded@[k]@);
    }
    false
}

impl XmlDoc {
    /// The fields of element `root` that no extractor maps, kept verbatim so
    /// nothing the source says is lost.
    pub fn extra_fields(&self, root: usize, excluded: &[&str]) -> (r: Vec<(String, Doc)>)
        requires
            root < self@.len(),
        ensures
            entries_view(r@) == extra_fields_of(self@, root as int, str_views(excluded@)),
    {
        let ghost ex = str_views(excluded@);
        let mut kept: Vec<usize> = Vec::new();
        let mut j: usize = 0;
        while j < self.elements.len()
            invariant
                j <= self@.len(),
                ex == str_views(excluded@),
                kept@.map_values(|x: usize| x as int) == kept_children(self@, root as int, ex, j as int),
            decreases self@.len() - j,
        {
            let ghost before = kept@;
            if self.elements[j].parent == Some(root) && !excluded_name(excluded, self.elements[j].name.as_str()) {
                kept.push(j);
                assert(kept@.map_values(|x: usize| x as int) =~= before.map_values(|x: usize| x as int).push(j as int));
            }
            j = j + 1;
        }
        let ghost kv = kept_children(self@, root as int, ex, self@.len() as int);
        proof { lemma_kept_children(self@, root as int, ex, self@.len() as int); }
        assert forall|x: int| 0 <= x < kept@.len() implies is_child(self@, root as int, #[trigger] kept@[x] as int) by {
            assert(kv[x] == kept@[x] as int);
        }
        let empty: Vec<(String, Doc)> = Vec::new();
        assert(entries_view(empty@) =~= Seq::<(Seq<char>, DocView)>::empty());
        self.fold_kids(root, &kept, empty)
    }
}

/// Element `i` is `n` or lies inside it.
pub open spec fn is_within(es: Seq<XmlElement>, n: int, i: int) -> bool
    decreases i,
{
    if i == n {
        true
    } else if i < 0 || i >= es.len() {
        false
    } else {
        match es[i].parent {
            Some(p) => p < i && is_within(es, n, p as int),
            None => false,
        }
    }
}

/// The non-empty `href`s of `n` and the elements inside it, among the first
/// `upto`, in document order.
pub open spec fn hrefs_within(es: Seq<XmlElement>, n: int, upto: int) -> Seq<Seq<char>>
    decreases upto,
{
    if upto <= 0 {
        Seq::empty()
    } else {
        let rest = hrefs_within(es, n, upto - 1);
        let i = upto - 1;
        if is_within(es, n, i) && (attr_of(es[i].attributes@, "href"@) matches Some(h) && h.len() > 0) {
            rest.push(attr_of(es[i].attributes@, "href"@)->0)
        } else {
            rest
        }
    }
}

impl XmlDoc {
    /// Every non-empty `href` at or below element `node`, in document order.
    pub fn descendant_hrefs(&self, node: usize) -> (r: Vec<String>)
        ensures
            r@.map_values(|h: String| h@) == hrefs_within(self@, node as int, self@.len() as int),
    {
        let mut inside: Vec<bool> = Vec::new();
        let mut out: Vec<String> = Vec::new();
        let mut i: usize = 0;
        while i < self.elements.len()
            invariant
                i <= self@.len(),
                inside@.len() == i,
                forall|k: int| 0 <= k < i ==> inside@[k] == is_within(self@, node as int, k),
                out@.map_values(|h: String| h@) == hrefs_within(self@, node as int, i as int),
            decreases self@.len() - i,
        {
            let within = if i == node {
                true
            } else {
                match self.elements[i].parent {
                    Some(p) => p < i && inside[p],
                    None => false,
                }
            };
            inside.push(within);
            if within {
                match attr_lookup(&self.elements[i].attributes, "href") {
                    Some(h) => if h.len() > 0 {
                        let ghost before = out@.map_values(|h: String| h@);
                        out.push(string_of(h.as_slice()));
                        assert(out@.map_values(|h: String| h@) =~= before.push(h@));
                    },
                    None => {},
                }
            }
            i = i + 1;
        }
        out
    }
}

} // verus!
