//! Value types for a simple document tree: nodes, elements and attributes,
//! with constructors for each kind of node.

use vstd::prelude::*;

verus! {

/// The different kinds of nodes a document tree can hold.
#[derive(Debug)]
pub enum NodeType {
    Element(ElementData),
    Text(String),
    Comment(String),
    Document,
    Doctype,
}

/// The data carried by an element node: its tag and its attributes.
#[derive(Debug)]
pub struct ElementData {
    pub tag_name: String,
    pub attributes: Vec<Attribute>,
}

/// A single `name="value"` attribute of an element.
#[derive(Debug, Clone)]
pub struct Attribute {
    pub name: String,
    pub value: String,
}

/// A node of the document tree: its kind, its children, and optional
/// attribute, namespace and text payloads shared by every kind.
#[derive(Debug)]
pub struct Node {
    pub children: Vec<Node>,
    pub node_type: NodeType,
    pub attributes: Option<Vec<Attribute>>,
    pub namespace: Option<String>,
    pub text: Option<String>,
}

impl Attribute {
    /// An exact copy of this attribute, stated as such (the derived `Clone`
    /// carries no contract).
    fn duplicate(&self) -> (r: Attribute)
        ensures
            r == *self,
    {
        Attribute { name: self.name.clone(), value: self.value.clone() }
    }
}

/// An element-by-element copy of an attribute list.
fn copy_attributes(attributes: &Vec<Attribute>) -> (r: Vec<Attribute>)
    ensures
        r@ == attributes@,
{
    let mut r: Vec<Attribute> = Vec::new();
    let mut i: usize = 0;
    while i < attributes.len()
        invariant
            i <= attributes.len(),
            r@ =~= attributes@.subrange(0, i as int),
        decreases attributes.len() - i,
    {
        r.push(attributes[i].duplicate());
        i = i + 1;
    }
    proof {
        assert(r@ =~= attributes@);
    }
    r
}

impl Node {
    /// A childless element node with the given tag and attributes; the
    /// attribute list is also kept in the node's own `attributes` slot.
    pub fn new_element(tag_name: String, attributes: Vec<Attribute>) -> (r: Node)
        ensures
            r.children@.len() == 0,
            (r.node_type matches NodeType::Element(ed)
                && ed.tag_name == tag_name && ed.attributes == attributes),
            (r.attributes matches Some(a) && a@ == attributes@),
            r.namespace is None,
            r.text is None,
    {
        let attribute = copy_attributes(&attributes);
        Node {
            children: Vec::new(),
            node_type: NodeType::Element(ElementData { tag_name, attributes }),
            attributes: Some(attribute),
            namespace: None,
            text: None,
        }
    }

    /// A childless text node holding the given text, both as its kind and in
    /// its `text` slot.
    pub fn new_text(text: &str) -> (r: Node)
        ensures
            r.children@.len() == 0,
            (r.node_type matches NodeType::Text(t) && t@ == text@),
            r.attributes is None,
            r.namespace is None,
            (r.text matches Some(t) && t@ == text@),
    {
        Node {
            children: Vec::new(),
            node_type: NodeType::Text(text.to_owned()),
            attributes: None,
            namespace: None,
            text: Some(text.to_owned()),
        }
    }

    /// A childless comment node holding the given text, both as its kind and
    /// in its `text` slot.
    pub fn new_comment(text: &str) -> (r: Node)
        ensures
            r.children@.len() == 0,
            (r.node_type matches NodeType::Comment(t) && t@ == text@),
            r.attributes is None,
            r.namespace is None,
            (r.text matches Some(t) && t@ == text@),
    {
        Node {
            children: Vec::new(),
            node_type: NodeType::Comment(text.to_owned()),
            attributes: None,
            namespace: None,
            text: Some(text.to_owned()),
        }
    }

    /// An empty document root node.
    pub fn new_document() -> (r: Node)
        ensures
            r.children@.len() == 0,
            r.node_type is Document,
            r.attributes is None,
            r.namespace is None,
            r.text is None,
    {
        Node {
            children: Vec::new(),
            node_type: NodeType::Document,
            attributes: None,
            namespace: None,
            text: None,
        }
    }

    /// An empty doctype node.
    pub fn new_doctype() -> (r: Node)
        ensures
            r.children@.len() == 0,
            r.node_type is Doctype,
            r.attributes is None,
            r.namespace is None,
            r.text is None,
    {
        Node {
            children: Vec::new(),
            node_type: NodeType::Doctype,
            attributes: None,
            namespace: None,
            text: None,
        }
    }
}

} // verus!
