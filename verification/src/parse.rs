//! Reading XML text into the element list the extractors work on. The
//! `roxmltree` crate parses; the library keeps its elements in document
//! order, each with the position of its enclosing element and the text of
//! its text children.

use vstd::prelude::*;
use roxmltree::NodeType;
use crate::xml::{XmlDoc, XmlElement, tree_order, opt_string};
use crate::text::{chars_of, string_of};

verus! {

/// What kind of node the parser reports.
#[derive(Debug, Clone, Copy, PartialEq, Eq, Structural)]
pub enum NodeKind {
    Root,
    Element,
    Text,
    /// A comment or a processing instruction.
    Other,
}

/// One node as the parser reports it, in document order: its id, the id of
/// the node enclosing it, its kind, its tag's local name, its attributes and
/// its text (an element's: its first child's, when that is text).
#[derive(Debug)]
pub struct ParsedNode {
    pub id: usize,
    pub parent: Option<usize>,
    pub kind: NodeKind,
    pub name: String,
    pub attributes: Vec<(String, String)>,
    pub text: Option<String>,
}

/// A parsed node as values.
pub struct NodeView {
    pub id: usize,
    pub parent: Option<usize>,
    pub kind: NodeKind,
    pub name: Seq<char>,
    pub attributes: Seq<(Seq<char>, Seq<char>)>,
    pub text: Option<Seq<char>>,
}

pub open spec fn pair_views(v: Seq<(String, String)>) -> Seq<(Seq<char>, Seq<char>)> {
    v.map_values(|p: (String, String)| (p.0@, p.1@))
}

pub open spec fn node_view(n: ParsedNode) -> NodeView {
    NodeView {
        id: n.id,
        parent: n.parent,
        kind: n.kind,
        name: n.name@,
        attributes: pair_views(n.attributes@),
        text: opt_string(n.text),
    }
}

pub open spec fn node_views(v: Seq<ParsedNode>) -> Seq<NodeView> {
    v.map_values(|n: ParsedNode| node_view(n))
}

/// The nodes `roxmltree::Document::parse` reports for `text`, in document
/// order; none where the text is not well-formed XML.
pub uninterp spec fn xml_nodes(text: Seq<char>) -> Option<Seq<NodeView>>;

/// `roxmltree::Document::parse` and `Document::descendants`: every node of
/// the document in document order, each as its id, its parent's id, its
/// kind and its name, attributes and text; `None` when the text does not
/// parse. The contract names what the parser reports and claims no more of
/// it.
#[verifier::external_body]
fn parse_nodes(text: &str) -> (r: Option<Vec<ParsedNode>>)
    ensures
        match r {
            Some(v) => xml_nodes(text@) == Some(node_views(v@)),
            None => xml_nodes(text@) is None,
        },
{
    let doc = roxmltree::Document::parse(text).ok()?;
    Some(doc.descendants().map(|n| ParsedNode {
        id: n.id().get_usize(),
        parent: n.parent().map(|p| p.id().get_usize()),
        kind: match n.node_type() {
            NodeType::Root => NodeKind::Root,
            NodeType::Element => NodeKind::Element,
            NodeType::Text => NodeKind::Text,
            NodeType::PI => NodeKind::Other,
            NodeType::Comment => NodeKind::Other,
        },
        name: n.tag_name().name().to_owned(),
        attributes: n.attributes().map(|a| (a.name().to_owned(), a.value().to_owned())).collect(),
        text: n.text().map(str::to_owned),
    }).collect())
}

/// The positions of the element nodes among the first `upto`, in order.
pub open spec fn element_positions(ns: Seq<NodeView>, upto: int) -> Seq<int>
    decreases upto,
{
    if upto <= 0 {
        Seq::empty()
    } else if ns[upto - 1].kind == NodeKind::Element {
        element_positions(ns, upto - 1).push(upto - 1)
    } else {
        element_positions(ns, upto - 1)
    }
}

/// Where, among the elements `ix`, the one with node id `id` stands.
pub open spec fn element_with_id(ns: Seq<NodeView>, ix: Seq<int>, id: usize, upto: int) -> Option<int>
    decreases upto,
{
    if upto <= 0 {
        None
    } else {
        match element_with_id(ns, ix, id, upto - 1) {
            Some(q) => Some(q),
            None => if ns[ix[upto - 1]].id == id { Some(upto - 1) } else { None },
        }
    }
}

/// The text of the text nodes among the first `upto` whose parent is `id`.
pub open spec fn child_texts(ns: Seq<NodeView>, id: usize, upto: int) -> Seq<Seq<char>>
    decreases upto,
{
    if upto <= 0 {
        Seq::empty()
    } else {
        let rest = child_texts(ns, id, upto - 1);
        let n = ns[upto - 1];
        if n.kind == NodeKind::Text && n.parent == Some(id) {
            rest.push(match n.text { Some(t) => t, None => Seq::empty() })
        } else {
            rest
        }
    }
}

pub open spec fn text_views(v: Seq<String>) -> Seq<Seq<char>> {
    v.map_values(|s: String| s@)
}

/// The element list made of the parsed nodes: one element for each element
/// node, in order, with the position of its enclosing element (none for the
/// root element), its name, attributes and text, and the text of each of its
/// text children.
pub open spec fn elements_of(ns: Seq<NodeView>, es: Seq<XmlElement>) -> bool {
    let ix = element_positions(ns, ns.len() as int);
    &&& es.len() == ix.len()
    &&& forall|j: int| 0 <= j < es.len() ==> {
        let n = ns[ix[j]];
        &&& (#[trigger] es[j]).name@ == n.name
        &&& pair_views(es[j].attributes@) == n.attributes
        &&& opt_string(es[j].text) == n.text
        &&& text_views(es[j].content@) == child_texts(ns, n.id, ns.len() as int)
        &&& es[j].parent == match n.parent {
            Some(p) => match element_with_id(ns, ix, p, ix.len() as int) {
                Some(q) => Some(q as usize),
                None => None,
            },
            None => None,
        }
    }
}

fn copy_text(s: &String) -> (out: String)
    ensures
        out@ == s@,
{
    string_of(chars_of(s.as_str()).as_slice())
}

fn copy_pairs(v: &Vec<(String, String)>) -> (out: Vec<(String, String)>)
    ensures
        pair_views(out@) == pair_views(v@),
{
    let mut out: Vec<(String, String)> = Vec::new();
    let mut i: usize = 0;
    while i < v.len()
        invariant
            i <= v@.len(),
            pair_views(out@) == pair_views(v@.take(i as int)),
        decreases v@.len() - i,
    {
        let ghost before = pair_views(out@);
        out.push((copy_text(&v[i].0), copy_text(&v[i].1)));
        assert(pair_views(out@) =~= before.push((v@[i as int].0@, v@[i as int].1@)));
        assert(pair_views(v@.take(i + 1)) =~= pair_views(v@.take(i as int)).push((v@[i as int].0@, v@[i as int].1@)));
        i = i + 1;
    }
    assert(v@.take(v@.len() as int) =~= v@);
    out
}

fn positions_of_elements(nodes: &Vec<ParsedNode>) -> (ix: Vec<usize>)
    ensures
        ix@.map_values(|k: usize| k as int) == element_positions(node_views(nodes@), nodes@.len() as int),
        forall|j: int| 0 <= j < ix@.len() ==> ix@[j] < nodes@.len(),
{
    let ghost ns = node_views(nodes@);
    let mut ix: Vec<usize> = Vec::new();
    let mut i: usize = 0;
    while i < nodes.len()
        invariant
            i <= nodes@.len(),
            ns == node_views(nodes@),
            ix@.map_values(|k: usize| k as int) == element_positions(ns, i as int),
            forall|j: int| 0 <= j < ix@.len() ==> ix@[j] < i,
        decreases nodes@.len() - i,
    {
        let ghost before = ix@.map_values(|k: usize| k as int);
        assert(ns[i as int].kind == nodes@[i as int].kind);
        if nodes[i].kind == NodeKind::Element {
            ix.push(i);
            assert(ix@.map_values(|k: usize| k as int) =~= before.push(i as int));
        }
        i = i + 1;
    }
    ix
}

fn find_element(nodes: &Vec<ParsedNode>, ix: &Vec<usize>, id: usize) -> (r: Option<usize>)
    requires
        forall|j: int| 0 <= j < ix@.len() ==> ix@[j] < nodes@.len(),
    ensures
        match r {
            Some(q) => element_with_id(node_views(nodes@), ix@.map_values(|k: usize| k as int), id, ix@.len() as int)
                == Some(q as int),
            None => element_with_id(node_views(nodes@), ix@.map_values(|k: usize| k as int), id, ix@.len() as int)
                is None,
        },
{
    let ghost ns = node_views(nodes@);
    let ghost iv = ix@.map_values(|k: usize| k as int);
    let mut q: usize = 0;
    while q < ix.len()
        invariant
            q <= ix@.len(),
            ns == node_views(nodes@),
            iv == ix@.map_values(|k: usize| k as int),
            forall|j: int| 0 <= j < ix@.len() ==> ix@[j] < nodes@.len(),
            element_with_id(ns, iv, id, q as int) is None,
        decreases ix@.len() - q,
    {
        assert(ns[iv[q as int]].id == nodes@[ix@[q as int] as int].id);
        if nodes[ix[q]].id == id {
            proof { lemma_found_stays(ns, iv, id, (q + 1) as int, ix@.len() as int); }
            return Some(q);
        }
        q = q + 1;
    }
    None
}

proof fn lemma_found_stays(ns: Seq<NodeView>, ix: Seq<int>, id: usize, a: int, b: int)
    requires
        0 <= a <= b,
        element_with_id(ns, ix, id, a) is Some,
    ensures
        element_with_id(ns, ix, id, b) == element_with_id(ns, ix, id, a),
    decreases b - a,
{
    if a < b {
        lemma_found_stays(ns, ix, id, a, b - 1);
    }
}

fn text_children(nodes: &Vec<ParsedNode>, id: usize) -> (out: Vec<String>)
    ensures
        text_views(out@) == child_texts(node_views(nodes@), id, nodes@.len() as int),
{
    let ghost ns = node_views(nodes@);
    let mut out: Vec<String> = Vec::new();
    let mut i: usize = 0;
    while i < nodes.len()
        invariant
            i <= nodes@.len(),
            ns == node_views(nodes@),
            text_views(out@) == child_texts(ns, id, i as int),
        decreases nodes@.len() - i,
    {
        let ghost before = text_views(out@);
        let n = &nodes[i];
        assert(ns[i as int] == node_view(*n));
        if n.kind == NodeKind::Text && n.parent == Some(id) {
            let t = match &n.text {
                Some(t) => copy_text(t),
                None => string_of(Vec::<char>::new().as_slice()),
            };
            let ghost tv = t@;
            out.push(t);
            assert(text_views(out@) =~= before.push(tv));
        }
        i = i + 1;
    }
    out
}

fn copy_opt(o: &Option<String>) -> (out: Option<String>)
    ensures
        opt_string(out) == opt_string(*o),
{
    match o {
        Some(s) => Some(copy_text(s)),
        None => None,
    }
}

/// Parses XML text into its elements in document order; `None` when the
/// text is not well-formed XML, or when its elements would not be in
/// document order.
pub fn parse_document(text: &str) -> (r: Option<XmlDoc>)
    ensures
        match r {
            Some(d) => xml_nodes(text@) matches Some(ns) && elements_of(ns, d@),
            None => xml_nodes(text@) is None
                || exists|es: Seq<XmlElement>| elements_of(xml_nodes(text@)->0, es) && !tree_order(es),
        },
{
    let nodes = match parse_nodes(text) {
        Some(n) => n,
        None => return None,
    };
    let ghost ns = node_views(nodes@);
    let ix = positions_of_elements(&nodes);
    let ghost iv = ix@.map_values(|k: usize| k as int);
    let mut elements: Vec<XmlElement> = Vec::new();
    let mut j: usize = 0;
    while j < ix.len()
        invariant
            j <= ix@.len(),
            ns == node_views(nodes@),
            iv == ix@.map_values(|k: usize| k as int),
            iv == element_positions(ns, ns.len() as int),
            forall|x: int| 0 <= x < ix@.len() ==> ix@[x] < nodes@.len(),
            elements@.len() == j,
            forall|x: int| 0 <= x < j ==> {
                let n = ns[iv[x]];
                &&& (#[trigger] elements@[x]).name@ == n.name
                &&& pair_views(elements@[x].attributes@) == n.attributes
                &&& opt_string(elements@[x].text) == n.text
                &&& text_views(elements@[x].content@) == child_texts(ns, n.id, ns.len() as int)
                &&& elements@[x].parent == match n.parent {
                    Some(p) => match element_with_id(ns, iv, p, iv.len() as int) {
                        Some(q) => Some(q as usize),
                        None => None,
                    },
                    None => None,
                }
            },
        decreases ix@.len() - j,
    {
        let n = &nodes[ix[j]];
        assert(ns[iv[j as int]] == node_view(*n));
        let parent = match n.parent {
            Some(p) => find_element(&nodes, &ix, p),
            None => None,
        };
        let e = XmlElement {
            parent,
            name: copy_text(&n.name),
            attributes: copy_pairs(&n.attributes),
            text: copy_opt(&n.text),
            content: text_children(&nodes, n.id),
        };
        let ghost before = elements@;
        elements.push(e);
        assert forall|x: int| 0 <= x < j + 1 implies #[trigger] elements@[x] == if x < j { before[x] } else { elements@[j as int] } by {}
        j = j + 1;
    }
    let ghost es = elements@;
    assert(elements_of(ns, es));
    match XmlDoc::new(elements) {
        Some(d) => Some(d),
        None => {
            assert(elements_of(xml_nodes(text@)->0, es) && !tree_order(es));
            None
        },
    }
}

} // verus!
