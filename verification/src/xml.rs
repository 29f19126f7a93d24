//! The element tree of an XML document as a list of nodes in document
//! order, read by the `roxmltree` crate.
use vstd::prelude::*;

verus! {

/// An attribute: its local name and its value.
pub struct XmlAttribute {
    pub name: String,
    pub value: String,
}

/// A node of a document.  `tag` is the local name of an element (empty for
/// other nodes); `parent` is the index of the parent node; the node and its
/// descendants are the `size` nodes from its own index on.
pub struct XmlNode {
    pub tag: String,
    pub attributes: Vec<XmlAttribute>,
    pub parent: Option<usize>,
    pub size: usize,
}

/// The abstract value of an `XmlNode`.
pub struct XmlNodeModel {
    pub tag: Seq<char>,
    pub attributes: Seq<(Seq<char>, Seq<char>)>,
    pub parent: Option<usize>,
    pub size: nat,
}

impl View for XmlAttribute {
    type V = (Seq<char>, Seq<char>);

    open spec fn view(&self) -> (Seq<char>, Seq<char>) {
        (self.name@, self.value@)
    }
}

impl View for XmlNode {
    type V = XmlNodeModel;

    open spec fn view(&self) -> XmlNodeModel {
        XmlNodeModel {
            tag: self.tag@,
            attributes: self.attributes@.map_values(|a: XmlAttribute| a@),
            parent: self.parent,
            size: self.size as nat,
        }
    }
}

/// The nodes of the XML document `text` in document order, the root first,
/// if `text` is a document that `roxmltree` accepts.
pub uninterp spec fn xml_nodes(text: Seq<char>) -> Option<Seq<XmlNodeModel>>;

/// `roxmltree::Document::parse`, with the document's nodes
/// (`Document::descendants`) listed as `XmlNode`s: each node's tag name
/// (`tag_name().name()`), its attributes' local names and values in order,
/// its parent's `NodeId` and the number of its descendants counting itself.
/// The list is named `xml_nodes(text)`; a parse error is returned as its
/// message, whose text is not stated.
#[verifier::external_body]
pub(crate) fn parse_xml(text: &str) -> (r: Result<Vec<XmlNode>, String>)
    ensures
        r is Ok <==> xml_nodes(text@) is Some,
        r matches Ok(v) ==> xml_nodes(text@) == Some(v@.map_values(|n: XmlNode| n@)),
{
    match roxmltree::Document::parse(text) {
        Ok(doc) => Ok(doc.descendants().map(|n| XmlNode {
            tag: n.tag_name().name().to_string(),
            attributes: n.attributes().map(|a| XmlAttribute { name: a.name().to_string(), value: a.value().to_string() }).collect(),
            parent: n.parent().map(|p| p.id().get_usize()),
            size: n.descendants().count(),
        }).collect()),
        Err(e) => Err(e.to_string()),
    }
}

} // verus!
