//! The content tree produced by grouping: header and paragraph nodes, and
//! list nodes holding the items of one run of consecutive list lines.
use vstd::prelude::*;

verus! {

/// Specification-level model of one content node.
pub enum ContentNode {
    Header(Seq<char>),
    Paragraph(Seq<char>),
    /// One grouped run of consecutive list items, in source order.
    List(Seq<Seq<char>>),
}

/// One node of the content tree, owning its text.
pub enum ContentTreeElement {
    Header(String),
    Paragraph(String),
    List(Vec<String>),
}

impl View for ContentTreeElement {
    type V = ContentNode;

    open spec fn view(&self) -> ContentNode {
        match self {
            ContentTreeElement::Header(text) => ContentNode::Header(text@),
            ContentTreeElement::Paragraph(text) => ContentNode::Paragraph(text@),
            ContentTreeElement::List(items) => ContentNode::List(items.deep_view()),
        }
    }
}

/// The content tree: an ordered list of content nodes.
pub struct ContentTree {
    pub(crate) elements: Vec<ContentTreeElement>,
}

impl View for ContentTree {
    type V = Seq<ContentNode>;

    open(crate) spec fn view(&self) -> Seq<ContentNode> {
        self.elements@.map_values(|e: ContentTreeElement| e@)
    }
}

impl ContentTree {
    /// An empty content tree.
    pub fn new() -> (result: Self)
        ensures
            result@ == Seq::<ContentNode>::empty(),
    {
        let result = Self { elements: Vec::new() };
        proof {
            assert(result@ =~= Seq::<ContentNode>::empty());
        }
        result
    }

    /// Appends one node, keeping the order of the earlier ones.
    pub fn push_element(&mut self, element: ContentTreeElement)
        ensures
            final(self)@ == old(self)@.push(element@),
    {
        self.elements.push(element);
        proof {
            assert(self@ =~= old(self)@.push(element@));
        }
    }

    /// Removes and returns the last node, if any.
    pub fn pop_element(&mut self) -> (result: Option<ContentTreeElement>)
        ensures
            match result {
                Option::Some(element) => old(self)@.len() > 0 && element@ == old(self)@.last()
                    && final(self)@ == old(self)@.drop_last(),
                Option::None => old(self)@.len() == 0 && final(self)@ == old(self)@,
            },
    {
        let result = self.elements.pop();
        proof {
            if old(self).elements@.len() > 0 {
                assert(self@ =~= old(self)@.drop_last());
            } else {
                assert(self@ =~= old(self)@);
            }
        }
        result
    }
}

} // verus!
