//! A flat, owned model of an XML document: its nodes in document order with their parent links,
//! read by `roxmltree`; and subtree membership over that model.

use vstd::prelude::*;

verus! {

/// An attribute: namespace URI (if any), local name and value.
#[derive(Debug)]
pub struct XmlAttr {
    pub namespace: Option<String>,
    pub name: String,
    pub value: String,
}

/// A node of the document: its parent's position, whether it is an element, its namespace URI and
/// local name (for an element), its attributes, and its text (an element's leading text child, or
/// a text or comment node's own text).
#[derive(Debug)]
pub struct XmlNode {
    pub parent: Option<usize>,
    pub is_element: bool,
    pub namespace: Option<String>,
    pub name: String,
    pub attributes: Vec<XmlAttr>,
    pub text: Option<String>,
}

/// The mathematical value of an [`XmlAttr`].
pub struct AttrView {
    pub namespace: Option<Seq<char>>,
    pub name: Seq<char>,
    pub value: Seq<char>,
}

/// The mathematical value of an [`XmlNode`].
pub struct NodeView {
    pub parent: Option<usize>,
    pub is_element: bool,
    pub namespace: Option<Seq<char>>,
    pub name: Seq<char>,
    pub attributes: Seq<AttrView>,
    pub text: Option<Seq<char>>,
}

pub open spec fn opt_text(o: Option<String>) -> Option<Seq<char>> {
    match o {
        Some(s) => Some(s@),
        None => None,
    }
}

impl XmlAttr {
    pub open spec fn view(self) -> AttrView {
        AttrView { namespace: opt_text(self.namespace), name: self.name@, value: self.value@ }
    }
}

pub open spec fn attrs_view(v: Seq<XmlAttr>) -> Seq<AttrView> {
    Seq::new(v.len(), |k: int| v[k].view())
}

impl XmlNode {
    pub open spec fn view(self) -> NodeView {
        NodeView {
            parent: self.parent,
            is_element: self.is_element,
            namespace: opt_text(self.namespace),
            name: self.name@,
            attributes: attrs_view(self.attributes@),
            text: opt_text(self.text),
        }
    }
}

pub open spec fn nodes_view(v: Seq<XmlNode>) -> Seq<NodeView> {
    Seq::new(v.len(), |k: int| v[k].view())
}

/// The nodes `roxmltree` reads from a text, in document order starting with the document node, or
/// its error message.
pub uninterp spec fn xml_nodes(text: Seq<char>) -> Result<Seq<NodeView>, Seq<char>>;

/// `roxmltree::Document::parse`, then its nodes (`descendants` of the document) as owned values,
/// each parent given by its `NodeId` (the node's position in document order); an error becomes its
/// message. Claimed: the result is the named one, which depends on the text alone.
#[verifier::external_body]
pub(crate) fn parse_xml(text: &str) -> (r: Result<Vec<XmlNode>, String>)
    ensures
        match r {
            Ok(v) => xml_nodes(text@) == Ok::<Seq<NodeView>, Seq<char>>(nodes_view(v@)),
            Err(m) => xml_nodes(text@) == Err::<Seq<NodeView>, Seq<char>>(m@),
        },
{
    let doc = roxmltree::Document::parse(text).map_err(|e| e.to_string())?;
    Ok(doc.descendants().map(|n| XmlNode {
        parent: n.parent().map(|p| p.id().get_usize()),
        is_element: n.is_element(),
        namespace: n.tag_name().namespace().map(str::to_owned),
        name: n.tag_name().name().to_owned(),
        attributes: n.attributes().map(|a| XmlAttr {
            namespace: a.namespace().map(str::to_owned),
            name: a.name().to_owned(),
            value: a.value().to_owned(),
        }).collect(),
        text: n.text().map(str::to_owned),
    }).collect())
}

/// The parent of node `x`, when it is a node of the list.
pub open spec fn parent_of(nodes: Seq<NodeView>, x: int) -> Option<int> {
    if 0 <= x < nodes.len() {
        match nodes[x].parent {
            Some(p) => if p < nodes.len() {
                Some(p as int)
            } else {
                None
            },
            None => None,
        }
    } else {
        None
    }
}

/// The node `k` parent links above `j`, if the chain is that long.
pub open spec fn ancestor(nodes: Seq<NodeView>, j: int, k: nat) -> Option<int>
    decreases k,
{
    if k == 0 {
        Some(j)
    } else {
        match ancestor(nodes, j, (k - 1) as nat) {
            Some(x) => parent_of(nodes, x),
            None => None,
        }
    }
}

/// Node `j` is `i` or lies below it (within as many parent links as there are nodes).
pub open spec fn in_subtree(nodes: Seq<NodeView>, j: int, i: int) -> bool {
    j == i || exists|k: nat| 1 <= k <= nodes.len() && #[trigger] ancestor(nodes, j, k) == Some(i)
}

/// Decides [`in_subtree`].
pub fn is_in_subtree(nodes: &Vec<XmlNode>, j: usize, i: usize) -> (r: bool)
    requires
        j < nodes@.len(),
    ensures
        r == in_subtree(nodes_view(nodes@), j as int, i as int),
{
    let ghost nv = nodes_view(nodes@);
    if j == i {
        return true;
    }
    let mut cur = j;
    let mut k: usize = 0;
    while k < nodes.len()
        invariant
            nv == nodes_view(nodes@),
            j != i,
            k <= nodes@.len(),
            cur < nodes@.len(),
            ancestor(nv, j as int, k as nat) == Some(cur as int),
            forall|q: nat| 1 <= q <= k ==> #[trigger] ancestor(nv, j as int, q) != Some(i as int),
        decreases nodes@.len() - k,
    {
        let next = match nodes[cur].parent {
            Some(p) => if p < nodes.len() {
                p
            } else {
                proof {
                    lemma_ancestor_stops(nv, j as int, (k + 1) as nat);
                }
                return false;
            },
            None => {
                proof {
                    lemma_ancestor_stops(nv, j as int, (k + 1) as nat);
                }
                return false;
            },
        };
        assert(ancestor(nv, j as int, (k + 1) as nat) == Some(next as int));
        if next == i {
            return true;
        }
        cur = next;
        k = k + 1;
    }
    false
}

/// Once a chain of parent links breaks, it stays broken.
proof fn lemma_ancestor_stops(nodes: Seq<NodeView>, j: int, k: nat)
    requires
        k >= 1,
        ancestor(nodes, j, k) is None,
    ensures
        forall|q: nat| q >= k ==> #[trigger] ancestor(nodes, j, q) is None,
{
    assert forall|q: nat| q >= k implies #[trigger] ancestor(nodes, j, q) is None by {
        lemma_ancestor_stops_at(nodes, j, k, q);
    }
}

proof fn lemma_ancestor_stops_at(nodes: Seq<NodeView>, j: int, k: nat, q: nat)
    requires
        ancestor(nodes, j, k) is None,
        q >= k,
    ensures
        ancestor(nodes, j, q) is None,
    decreases q - k,
{
    if q > k {
        lemma_ancestor_stops_at(nodes, j, k, (q - 1) as nat);
    }
}

} // verus!
