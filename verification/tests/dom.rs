use urlparts::dom::{Attribute, Node, NodeType};

#[test]
fn element_node_keeps_tag_and_attributes() {
    let attrs = vec![Attribute { name: "class".to_string(), value: "main".to_string() }];
    let n = Node::new_element("div".to_string(), attrs);
    assert_eq!(n.children.len(), 0);
    match &n.node_type {
        NodeType::Element(ed) => {
            assert_eq!(ed.tag_name, "div");
            assert_eq!(ed.attributes.len(), 1);
            assert_eq!(ed.attributes[0].name, "class");
            assert_eq!(ed.attributes[0].value, "main");
        }
        _ => panic!("expected an element node"),
    }
    let copy = n.attributes.as_ref().unwrap();
    assert_eq!(copy.len(), 1);
    assert_eq!(copy[0].name, "class");
    assert_eq!(copy[0].value, "main");
    assert!(n.namespace.is_none());
    assert!(n.text.is_none());
}

#[test]
fn element_node_with_no_attributes() {
    let n = Node::new_element("p".to_string(), Vec::new());
    match &n.node_type {
        NodeType::Element(ed) => {
            assert_eq!(ed.tag_name, "p");
            assert_eq!(ed.attributes.len(), 0);
        }
        _ => panic!("expected an element node"),
    }
    assert_eq!(n.attributes.as_ref().unwrap().len(), 0);
}

#[test]
fn text_node_holds_text() {
    let n = Node::new_text("hello");
    assert_eq!(n.children.len(), 0);
    match &n.node_type {
        NodeType::Text(t) => assert_eq!(t, "hello"),
        _ => panic!("expected a text node"),
    }
    assert_eq!(n.text, Some("hello".to_string()));
    assert!(n.attributes.is_none());
    assert!(n.namespace.is_none());
}

#[test]
fn comment_node_holds_text() {
    let n = Node::new_comment("note");
    match &n.node_type {
        NodeType::Comment(t) => assert_eq!(t, "note"),
        _ => panic!("expected a comment node"),
    }
    assert_eq!(n.text, Some("note".to_string()));
}

#[test]
fn document_node_is_empty() {
    let n = Node::new_document();
    assert_eq!(n.children.len(), 0);
    assert!(matches!(n.node_type, NodeType::Document));
    assert!(n.attributes.is_none());
    assert!(n.namespace.is_none());
    assert!(n.text.is_none());
}

#[test]
fn doctype_node_is_empty() {
    let n = Node::new_doctype();
    assert_eq!(n.children.len(), 0);
    assert!(matches!(n.node_type, NodeType::Doctype));
    assert!(n.attributes.is_none());
    assert!(n.namespace.is_none());
    assert!(n.text.is_none());
}
