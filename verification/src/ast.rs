//! The abstract sequence produced by line classification: typed line records
//! together with the page title.
use vstd::prelude::*;

verus! {

/// Specification-level model of one classified line.
pub enum LineRecord {
    /// A line whose first significant character is `*`.
    Header(Seq<char>),
    /// Any other non-blank line, kept verbatim after trimming.
    Paragraph(Seq<char>),
    /// A line whose first significant character is `+`.
    ListItem(Seq<char>),
}

/// One classified line, owning its text.
pub enum ASTElement {
    Header(String),
    Paragraph(String),
    ListElement(String),
}

impl View for ASTElement {
    type V = LineRecord;

    open spec fn view(&self) -> LineRecord {
        match self {
            ASTElement::Header(text) => LineRecord::Header(text@),
            ASTElement::Paragraph(text) => LineRecord::Paragraph(text@),
            ASTElement::ListElement(text) => LineRecord::ListItem(text@),
        }
    }
}

/// Specification-level model of an abstract sequence: the title and the
/// classified records in source order.
pub struct AstView {
    pub title: Seq<char>,
    pub elements: Seq<LineRecord>,
}

/// The abstract sequence: an ordered list of line records plus a title.
pub struct AST {
    pub title: String,
    pub elements: Vec<ASTElement>,
}

impl View for AST {
    type V = AstView;

    open spec fn view(&self) -> AstView {
        AstView { title: self.title@, elements: self.elements@.map_values(|e: ASTElement| e@) }
    }
}

impl AST {
    /// An empty abstract sequence carrying the given title.
    pub fn new(title: String) -> (result: Self)
        ensures
            result@.title == title@,
            result@.elements == Seq::<LineRecord>::empty(),
    {
        let result = Self { title, elements: Vec::new() };
        proof {
            assert(result@.elements =~= Seq::<LineRecord>::empty());
        }
        result
    }

    /// Appends one record, keeping the order of the earlier ones.
    pub fn push_element(&mut self, element: ASTElement)
        ensures
            final(self)@.title == old(self)@.title,
            final(self)@.elements == old(self)@.elements.push(element@),
    {
        self.elements.push(element);
        proof {
            assert(self@.elements =~= old(self)@.elements.push(element@));
        }
    }

    /// Removes and returns the last record, if any.
    pub fn pop_element(&mut self) -> (result: Option<ASTElement>)
        ensures
            final(self)@.title == old(self)@.title,
            match result {
                Option::Some(element) => old(self)@.elements.len() > 0
                    && element@ == old(self)@.elements.last()
                    && final(self)@.elements == old(self)@.elements.drop_last(),
                Option::None => old(self)@.elements.len() == 0
                    && final(self)@.elements == old(self)@.elements,
            },
    {
        let result = self.elements.pop();
        proof {
            if old(self).elements@.len() > 0 {
                assert(self@.elements =~= old(self)@.elements.drop_last());
            } else {
                assert(self@.elements =~= old(self)@.elements);
            }
        }
        result
    }
}

} // verus!
