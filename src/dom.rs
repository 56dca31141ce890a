//! The document tree as flow construction sees it: node kinds, styles, text,
//! the attributes it consults, and children in document order.

use vstd::prelude::*;
use crate::style::{Style, WhiteSpace};

verus! {

/// The kinds of element that flow construction tells apart.
#[derive(Clone, Copy, Debug, PartialEq, Eq, Structural)]
pub enum ElementKind {
    Image,
    IFrame,
    Object,
    Table,
    TableCol,
    TableDataCell,
    TableHeaderCell,
    TableRow,
    TableSection,
    Other,
}

/// The type of a document node.
#[derive(Clone, Copy, Debug, PartialEq, Eq, Structural)]
pub enum NodeType {
    Element(ElementKind),
    Text,
    Comment,
    Doctype,
    DocumentFragment,
    Document,
    ProcessingInstruction,
}

/// Which of a node's three result slots a traversal node stands for: the node
/// itself, or the content generated before or after it.
#[derive(Clone, Copy, Debug, PartialEq, Eq, Structural)]
pub enum PseudoElement {
    Normal,
    Before,
    BeforeBlock,
    After,
    AfterBlock,
}

/// A node of the document tree, with its computed style and its children.
///
/// `key` identifies the node's entry in the result store; generated content
/// (`pseudo` other than `Normal`) shares the key of the element that
/// generates it and uses another slot. `type_id` is `None` for generated
/// content.
pub struct DomNode {
    pub key: usize,
    pub pseudo: PseudoElement,
    pub type_id: Option<NodeType>,
    pub style: Style,
    /// The character data of a text node.
    pub text: Vec<char>,
    /// The resolved source of an image element.
    pub image_url: Option<Vec<char>>,
    /// The `type` attribute of an object element.
    pub object_type: Option<Vec<char>>,
    /// The `data` attribute of an object element.
    pub object_data: Option<Vec<char>>,
    pub children: Vec<DomNode>,
}

/// The characters that count as white space in a document.
pub open spec fn spec_is_whitespace_char(c: char) -> bool {
    c == ' ' || c == '\t' || c == '\n' || c == '\x0c' || c == '\r'
}

/// A string made of white space only (the empty string included).
pub open spec fn spec_is_whitespace(s: Seq<char>) -> bool {
    forall|i: int| 0 <= i < s.len() ==> spec_is_whitespace_char(#[trigger] s[i])
}

/// Whether `c` is a white-space character.
pub fn is_whitespace_char(c: char) -> (r: bool)
    ensures
        r == spec_is_whitespace_char(c),
{
    c == ' ' || c == '\t' || c == '\n' || c == '\x0c' || c == '\r'
}

/// Whether every character of `s` is white space.
pub fn is_whitespace(s: &Vec<char>) -> (r: bool)
    ensures
        r == spec_is_whitespace(s@),
{
    let mut i: usize = 0;
    while i < s.len()
        invariant
            i <= s@.len(),
            spec_is_whitespace(s@.subrange(0, i as int)),
        decreases s@.len() - i,
    {
        if !is_whitespace_char(s[i]) {
            assert(!spec_is_whitespace_char(s@[i as int]));
            return false;
        }
        assert(s@.subrange(0, i + 1) =~= s@.subrange(0, i as int).push(s@[i as int]));
        i = i + 1;
    }
    assert(s@.subrange(0, i as int) =~= s@);
    true
}

/// `p` is a prefix of `s`.
pub open spec fn spec_has_prefix(s: Seq<char>, p: Seq<char>) -> bool {
    p.len() <= s.len() && s.subrange(0, p.len() as int) == p
}

/// A `data:` URI of one of the image types that can be shown in place.
pub open spec fn spec_is_image_data(uri: Seq<char>) -> bool {
    spec_has_prefix(uri, seq!['d', 'a', 't', 'a', ':', 'i', 'm', 'a', 'g', 'e', '/', 'p', 'n', 'g'])
    || spec_has_prefix(uri, seq!['d', 'a', 't', 'a', ':', 'i', 'm', 'a', 'g', 'e', '/', 'g', 'i', 'f'])
    || spec_has_prefix(uri, seq!['d', 'a', 't', 'a', ':', 'i', 'm', 'a', 'g', 'e', '/', 'j', 'p', 'e', 'g'])
}

fn has_prefix(s: &Vec<char>, p: &Vec<char>) -> (r: bool)
    ensures
        r == spec_has_prefix(s@, p@),
{
    if p.len() > s.len() {
        return false;
    }
    let mut i: usize = 0;
    while i < p.len()
        invariant
            i <= p@.len(),
            p@.len() <= s@.len(),
            s@.subrange(0, i as int) == p@.subrange(0, i as int),
        decreases p@.len() - i,
    {
        if s[i] != p[i] {
            assert(s@.subrange(0, p@.len() as int)[i as int] != p@[i as int]);
            return false;
        }
        assert(s@.subrange(0, i + 1) =~= s@.subrange(0, i as int).push(s@[i as int]));
        assert(p@.subrange(0, i + 1) =~= p@.subrange(0, i as int).push(p@[i as int]));
        i = i + 1;
    }
    assert(p@.subrange(0, i as int) =~= p@);
    true
}

/// Whether `uri` is a `data:` URI of a PNG, GIF or JPEG image.
pub fn is_image_data(uri: &Vec<char>) -> (r: bool)
    ensures
        r == spec_is_image_data(uri@),
{
    let png = vec!['d', 'a', 't', 'a', ':', 'i', 'm', 'a', 'g', 'e', '/', 'p', 'n', 'g'];
    let gif = vec!['d', 'a', 't', 'a', ':', 'i', 'm', 'a', 'g', 'e', '/', 'g', 'i', 'f'];
    let jpeg = vec!['d', 'a', 't', 'a', ':', 'i', 'm', 'a', 'g', 'e', '/', 'j', 'p', 'e', 'g'];
    assert(png@ =~= seq!['d', 'a', 't', 'a', ':', 'i', 'm', 'a', 'g', 'e', '/', 'p', 'n', 'g']);
    assert(gif@ =~= seq!['d', 'a', 't', 'a', ':', 'i', 'm', 'a', 'g', 'e', '/', 'g', 'i', 'f']);
    assert(jpeg@ =~= seq!['d', 'a', 't', 'a', ':', 'i', 'm', 'a', 'g', 'e', '/', 'j', 'p', 'e', 'g']);
    has_prefix(uri, &png) || has_prefix(uri, &gif) || has_prefix(uri, &jpeg)
}

/// An object element shows image data in place when it has no `type`
/// attribute and its `data` attribute is an image `data:` URI.
pub open spec fn spec_has_object_data(node: DomNode) -> bool {
    node.object_type.is_none() && node.object_data.is_some()
        && spec_is_image_data(node.object_data.unwrap()@)
}

/// Nodes whose children are not rendered: text and other character data,
/// generated content, images, and objects that show image data.
pub open spec fn spec_is_replaced_content(node: DomNode) -> bool {
    match node.type_id {
        Option::None => true,
        Option::Some(NodeType::Element(ElementKind::Image)) => true,
        Option::Some(NodeType::Element(ElementKind::Object)) => spec_has_object_data(node),
        Option::Some(NodeType::Element(_)) => false,
        Option::Some(_) => true,
    }
}

/// A text node of white space only whose `white-space` lets it collapse away.
pub open spec fn spec_is_ignorable_whitespace(node: DomNode) -> bool {
    node.type_id == Option::Some(NodeType::Text) && spec_is_whitespace(node.text@)
        && node.style.white_space == WhiteSpace::Normal
}

impl DomNode {
    /// Whether this object element shows image data in place.
    pub fn has_object_data(&self) -> (r: bool)
        ensures
            r == spec_has_object_data(*self),
    {
        match (&self.object_type, &self.object_data) {
            (Option::None, Option::Some(uri)) => is_image_data(uri),
            _ => false,
        }
    }

    /// The `data` URI of an object element that shows image data, if it does.
    pub fn get_object_data(&self) -> (r: Option<Vec<char>>)
        ensures
            r.is_some() == spec_has_object_data(*self),
            r.is_some() ==> r.unwrap()@ == self.object_data.unwrap()@,
    {
        match (&self.object_type, &self.object_data) {
            (Option::None, Option::Some(uri)) => {
                if is_image_data(uri) {
                    let c = uri.clone();
                    assert(c@ =~= uri@);
                    Option::Some(c)
                } else {
                    Option::None
                }
            },
            _ => Option::None,
        }
    }

    /// Whether this node does not render its children.
    pub fn is_replaced_content(&self) -> (r: bool)
        ensures
            r == spec_is_replaced_content(*self),
    {
        match self.type_id {
            Option::None => true,
            Option::Some(NodeType::Element(ElementKind::Image)) => true,
            Option::Some(NodeType::Element(ElementKind::Object)) => self.has_object_data(),
            Option::Some(NodeType::Element(_)) => false,
            Option::Some(_) => true,
        }
    }

    /// Whether this node is white space that collapses away.
    pub fn is_ignorable_whitespace(&self) -> (r: bool)
        ensures
            r == spec_is_ignorable_whitespace(*self),
    {
        match self.type_id {
            Option::Some(NodeType::Text) => {
                if !is_whitespace(&self.text) {
                    return false;
                }
                match self.style.white_space {
                    WhiteSpace::Normal => true,
                    _ => false,
                }
            },
            _ => false,
        }
    }
}

} // verus!
