//! A tiny static-site generator core: a line-oriented markup format is
//! classified into a flat sequence of typed line records, consecutive list
//! items are grouped into list blocks, and the grouped structure is rendered
//! into an HTML fragment. Every stage is specified over sequences of
//! characters and verified end to end. Reading sources, locating the page
//! template and interpolating the fragment into it are the caller's concern.
use vstd::prelude::*;

mod ast;
mod classify;
mod grouping;
mod render;
mod tree;

pub use crate::ast::ASTElement;
pub use crate::ast::AST;
pub use crate::ast::AstView;
pub use crate::ast::LineRecord;
pub use crate::classify::build_ast;
pub use crate::classify::classify_line;
pub use crate::classify::is_space;
pub use crate::classify::is_space_char;
pub use crate::classify::lemma_classifier_counts_nonblank_lines;
pub use crate::classify::lemma_classify_whitespace_insensitive;
pub use crate::classify::marker_content;
pub use crate::classify::nonblank_line_count;
pub use crate::classify::records_of;
pub use crate::classify::records_of_lines;
pub use crate::classify::split_lines;
pub use crate::classify::trim_of;
pub use crate::grouping::build_content_tree_from_ast;
pub use crate::grouping::group_records;
pub use crate::grouping::list_items_of;
pub use crate::grouping::record_text;
pub use crate::grouping::texts_of;
pub use crate::grouping::ungroup_node;
pub use crate::grouping::lemma_group_lists_nonempty;
pub use crate::grouping::lemma_group_no_adjacent_lists;
pub use crate::grouping::lemma_group_trailing_list;
pub use crate::grouping::lemma_group_ungroup;
pub use crate::grouping::lemma_single_run_groups_to_one_list;
pub use crate::grouping::ungroup_nodes;
pub use crate::render::build_site_content_from_content_tree;
pub use crate::render::render_node;
pub use crate::render::render_nodes;
pub use crate::tree::ContentNode;
pub use crate::tree::ContentTree;
pub use crate::tree::ContentTreeElement;

verus! {

/// The whole pipeline: classifies the source text, groups consecutive list
/// items, and renders the HTML fragment.
pub fn build_site(md: &str, title: &str) -> (result: String)
    ensures
        result@ == crate::render::render_nodes(
            crate::grouping::group_records(crate::classify::records_of(md@)),
        ),
{
    let sequence = crate::classify::build_ast(md, title);
    let content_tree = crate::grouping::build_content_tree_from_ast(sequence);
    crate::render::build_site_content_from_content_tree(content_tree)
}

} // verus!
