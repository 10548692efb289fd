//! The list grouper: a single pass over the abstract sequence that merges
//! each run of consecutive list items into one list node.
use vstd::prelude::*;

use crate::ast::ASTElement;
use crate::ast::AST;
use crate::ast::LineRecord;
use crate::tree::ContentNode;
use crate::tree::ContentTree;
use crate::tree::ContentTreeElement;

verus! {

/// Closing the list accumulator: an open run becomes one list node, an empty
/// accumulator contributes nothing.
pub open spec fn flush_acc(acc: Seq<Seq<char>>) -> Seq<ContentNode> {
    if acc.len() == 0 {
        Seq::empty()
    } else {
        seq![ContentNode::List(acc)]
    }
}

/// Grouping the remaining records, with `acc` holding the list items of the
/// run open just before them.
pub open spec fn group_rec(records: Seq<LineRecord>, acc: Seq<Seq<char>>) -> Seq<ContentNode>
    decreases records.len(),
{
    if records.len() == 0 {
        flush_acc(acc)
    } else {
        match records[0] {
            LineRecord::ListItem(text) => group_rec(records.skip(1), acc.push(text)),
            LineRecord::Header(text) => flush_acc(acc) + seq![ContentNode::Header(text)]
                + group_rec(records.skip(1), Seq::empty()),
            LineRecord::Paragraph(text) => flush_acc(acc) + seq![ContentNode::Paragraph(text)]
                + group_rec(records.skip(1), Seq::empty()),
        }
    }
}

/// The content tree of an abstract sequence: order kept, each maximal run of
/// consecutive list items collapsed into one list node.
pub open spec fn group_records(records: Seq<LineRecord>) -> Seq<ContentNode> {
    group_rec(records, Seq::empty())
}

/// The text carried by a record, whatever its kind.
pub open spec fn record_text(record: LineRecord) -> Seq<char> {
    match record {
        LineRecord::Header(text) => text,
        LineRecord::Paragraph(text) => text,
        LineRecord::ListItem(text) => text,
    }
}

/// The texts of a record sequence, in order.
pub open spec fn texts_of(records: Seq<LineRecord>) -> Seq<Seq<char>> {
    records.map_values(|record: LineRecord| record_text(record))
}

/// The list-item records carrying the given texts, in order.
pub open spec fn list_items_of(items: Seq<Seq<char>>) -> Seq<LineRecord> {
    items.map_values(|text: Seq<char>| LineRecord::ListItem(text))
}

/// The records a content node stands for: a list node for the run of list
/// items it replaced, any other node for its single record.
pub open spec fn ungroup_node(node: ContentNode) -> Seq<LineRecord> {
    match node {
        ContentNode::Header(text) => seq![LineRecord::Header(text)],
        ContentNode::Paragraph(text) => seq![LineRecord::Paragraph(text)],
        ContentNode::List(items) => list_items_of(items),
    }
}

/// The records a content tree stands for, in tree order.
pub open spec fn ungroup_nodes(nodes: Seq<ContentNode>) -> Seq<LineRecord>
    decreases nodes.len(),
{
    if nodes.len() == 0 {
        Seq::empty()
    } else {
        ungroup_node(nodes[0]) + ungroup_nodes(nodes.skip(1))
    }
}

proof fn lemma_ungroup_single(node: ContentNode)
    ensures
        ungroup_nodes(seq![node]) == ungroup_node(node),
{
    assert(seq![node].skip(1) =~= Seq::<ContentNode>::empty());
    assert(ungroup_nodes(Seq::<ContentNode>::empty()) == Seq::<LineRecord>::empty());
    assert(ungroup_nodes(seq![node]) =~= ungroup_node(node));
}

proof fn lemma_ungroup_concat(left: Seq<ContentNode>, right: Seq<ContentNode>)
    ensures
        ungroup_nodes(left + right) == ungroup_nodes(left) + ungroup_nodes(right),
    decreases left.len(),
{
    if left.len() == 0 {
        assert(left + right =~= right);
        assert(ungroup_nodes(left) + ungroup_nodes(right) =~= ungroup_nodes(right));
    } else {
        assert((left + right)[0] == left[0]);
        assert((left + right).skip(1) =~= left.skip(1) + right);
        lemma_ungroup_concat(left.skip(1), right);
        assert(ungroup_node(left[0]) + (ungroup_nodes(left.skip(1)) + ungroup_nodes(right))
            =~= (ungroup_node(left[0]) + ungroup_nodes(left.skip(1))) + ungroup_nodes(right));
    }
}

proof fn lemma_group_rec_ungroup(records: Seq<LineRecord>, acc: Seq<Seq<char>>)
    ensures
        ungroup_nodes(group_rec(records, acc)) == list_items_of(acc) + records,
    decreases records.len(),
{
    if records.len() == 0 {
        if acc.len() == 0 {
            assert(list_items_of(acc) + records =~= Seq::<LineRecord>::empty());
        } else {
            lemma_ungroup_single(ContentNode::List(acc));
            assert(list_items_of(acc) + records =~= list_items_of(acc));
        }
    } else {
        match records[0] {
            LineRecord::ListItem(text) => {
                lemma_group_rec_ungroup(records.skip(1), acc.push(text));
                assert(list_items_of(acc.push(text)) + records.skip(1) =~= list_items_of(acc)
                    + records);
            },
            LineRecord::Header(text) => {
                lemma_group_rec_ungroup(records.skip(1), Seq::empty());
                lemma_ungroup_concat(
                    flush_acc(acc) + seq![ContentNode::Header(text)],
                    group_rec(records.skip(1), Seq::empty()),
                );
                lemma_ungroup_concat(flush_acc(acc), seq![ContentNode::Header(text)]);
                if acc.len() == 0 {
                    assert(ungroup_nodes(flush_acc(acc)) =~= list_items_of(acc));
                } else {
                    lemma_ungroup_single(ContentNode::List(acc));
                }
                lemma_ungroup_single(ContentNode::Header(text));
                assert(list_items_of(Seq::empty()) + records.skip(1) =~= records.skip(1));
                assert((list_items_of(acc) + seq![LineRecord::Header(text)]) + records.skip(1)
                    =~= list_items_of(acc) + records);
            },
            LineRecord::Paragraph(text) => {
                lemma_group_rec_ungroup(records.skip(1), Seq::empty());
                lemma_ungroup_concat(
                    flush_acc(acc) + seq![ContentNode::Paragraph(text)],
                    group_rec(records.skip(1), Seq::empty()),
                );
                lemma_ungroup_concat(flush_acc(acc), seq![ContentNode::Paragraph(text)]);
                if acc.len() == 0 {
                    assert(ungroup_nodes(flush_acc(acc)) =~= list_items_of(acc));
                } else {
                    lemma_ungroup_single(ContentNode::List(acc));
                }
                lemma_ungroup_single(ContentNode::Paragraph(text));
                assert(list_items_of(Seq::empty()) + records.skip(1) =~= records.skip(1));
                assert((list_items_of(acc) + seq![LineRecord::Paragraph(text)]) + records.skip(1)
                    =~= list_items_of(acc) + records);
            },
        }
    }
}

/// Law: grouping loses, changes and reorders nothing. Reading the grouped
/// tree back record by record, a list node standing for one record per item,
/// restores the record sequence the tree was built from.
pub proof fn lemma_group_ungroup(records: Seq<LineRecord>)
    ensures
        ungroup_nodes(group_records(records)) == records,
{
    lemma_group_rec_ungroup(records, Seq::empty());
    assert(list_items_of(Seq::empty()) + records =~= records);
}

proof fn lemma_group_rec_no_adjacent_lists(records: Seq<LineRecord>, acc: Seq<Seq<char>>)
    ensures
        forall|i: int|
            0 <= i && i + 1 < group_rec(records, acc).len() ==> !((#[trigger] group_rec(
                records,
                acc,
            )[i]) is List && group_rec(records, acc)[i + 1] is List),
    decreases records.len(),
{
    if records.len() == 0 {
    } else {
        let out = group_rec(records, acc);
        match records[0] {
            LineRecord::ListItem(text) => {
                lemma_group_rec_no_adjacent_lists(records.skip(1), acc.push(text));
            },
            LineRecord::Header(text) => {
                lemma_group_rec_no_adjacent_lists(records.skip(1), Seq::empty());
                let flushed = flush_acc(acc) + seq![ContentNode::Header(text)];
                let tail = group_rec(records.skip(1), Seq::empty());
                assert forall|i: int| 0 <= i && i + 1 < out.len() implies !((#[trigger] out[i])
                    is List && out[i + 1] is List) by {
                    if i + 1 == flushed.len() - 1 {
                        assert(out[i + 1] == ContentNode::Header(text));
                    } else if i == flushed.len() - 1 {
                        assert(out[i] == ContentNode::Header(text));
                    } else if i >= flushed.len() {
                        assert(out[i] == tail[i - flushed.len()]);
                        assert(out[i + 1] == tail[i + 1 - flushed.len()]);
                    }
                }
            },
            LineRecord::Paragraph(text) => {
                lemma_group_rec_no_adjacent_lists(records.skip(1), Seq::empty());
                let flushed = flush_acc(acc) + seq![ContentNode::Paragraph(text)];
                let tail = group_rec(records.skip(1), Seq::empty());
                assert forall|i: int| 0 <= i && i + 1 < out.len() implies !((#[trigger] out[i])
                    is List && out[i + 1] is List) by {
                    if i + 1 == flushed.len() - 1 {
                        assert(out[i + 1] == ContentNode::Paragraph(text));
                    } else if i == flushed.len() - 1 {
                        assert(out[i] == ContentNode::Paragraph(text));
                    } else if i >= flushed.len() {
                        assert(out[i] == tail[i - flushed.len()]);
                        assert(out[i + 1] == tail[i + 1 - flushed.len()]);
                    }
                }
            },
        }
    }
}

/// Law: in a grouped content tree, no two adjacent nodes are both lists.
pub proof fn lemma_group_no_adjacent_lists(records: Seq<LineRecord>)
    ensures
        forall|i: int|
            0 <= i && i + 1 < group_records(records).len() ==> !((#[trigger] group_records(
                records,
            )[i]) is List && group_records(records)[i + 1] is List),
{
    lemma_group_rec_no_adjacent_lists(records, Seq::empty());
}

proof fn lemma_group_rec_lists_nonempty(records: Seq<LineRecord>, acc: Seq<Seq<char>>)
    ensures
        forall|i: int|
            0 <= i < group_rec(records, acc).len() ==> ((#[trigger] group_rec(records, acc)[i])
                matches ContentNode::List(items) ==> items.len() > 0),
    decreases records.len(),
{
    if records.len() == 0 {
    } else {
        match records[0] {
            LineRecord::ListItem(text) => {
                lemma_group_rec_lists_nonempty(records.skip(1), acc.push(text));
            },
            LineRecord::Header(text) => {
                lemma_group_rec_lists_nonempty(records.skip(1), Seq::empty());
            },
            LineRecord::Paragraph(text) => {
                lemma_group_rec_lists_nonempty(records.skip(1), Seq::empty());
            },
        }
    }
}

/// Law: every list node of a grouped content tree holds at least one item.
pub proof fn lemma_group_lists_nonempty(records: Seq<LineRecord>)
    ensures
        forall|i: int|
            0 <= i < group_records(records).len() ==> ((#[trigger] group_records(records)[i])
                matches ContentNode::List(items) ==> items.len() > 0),
{
    lemma_group_rec_lists_nonempty(records, Seq::empty());
}

proof fn lemma_group_rec_all_items(records: Seq<LineRecord>, acc: Seq<Seq<char>>)
    requires
        forall|i: int| 0 <= i < records.len() ==> (#[trigger] records[i]) is ListItem,
        acc.len() + records.len() > 0,
    ensures
        group_rec(records, acc) == seq![ContentNode::List(acc + texts_of(records))],
    decreases records.len(),
{
    if records.len() == 0 {
        assert(acc + texts_of(records) =~= acc);
    } else {
        match records[0] {
            LineRecord::ListItem(text) => {
                assert forall|i: int| 0 <= i < records.skip(1).len() implies (#[trigger] records.skip(
                    1,
                )[i]) is ListItem by {
                    assert(records.skip(1)[i] == records[i + 1]);
                }
                lemma_group_rec_all_items(records.skip(1), acc.push(text));
                assert(acc.push(text) + texts_of(records.skip(1)) =~= acc + texts_of(records));
            },
            LineRecord::Header(text) => {
                assert(false);
            },
            LineRecord::Paragraph(text) => {
                assert(false);
            },
        }
    }
}

/// Law: records that are all list items group to exactly one list node,
/// holding their texts in source order.
pub proof fn lemma_single_run_groups_to_one_list(records: Seq<LineRecord>)
    requires
        records.len() > 0,
        forall|i: int| 0 <= i < records.len() ==> (#[trigger] records[i]) is ListItem,
    ensures
        group_records(records) == seq![ContentNode::List(texts_of(records))],
{
    lemma_group_rec_all_items(records, Seq::empty());
    assert(Seq::<Seq<char>>::empty() + texts_of(records) =~= texts_of(records));
}

proof fn lemma_group_rec_trailing(records: Seq<LineRecord>, acc: Seq<Seq<char>>)
    requires
        (records.len() > 0 && records.last() is ListItem) || (records.len() == 0 && acc.len() > 0),
    ensures
        group_rec(records, acc).len() > 0,
        group_rec(records, acc).last() is List,
    decreases records.len(),
{
    if records.len() == 0 {
    } else {
        match records[0] {
            LineRecord::ListItem(text) => {
                if records.len() == 1 {
                    lemma_group_rec_trailing(records.skip(1), acc.push(text));
                } else {
                    assert(records.skip(1).last() == records.last());
                    lemma_group_rec_trailing(records.skip(1), acc.push(text));
                }
            },
            LineRecord::Header(text) => {
                assert(records.len() >= 2);
                assert(records.skip(1).last() == records.last());
                lemma_group_rec_trailing(records.skip(1), Seq::empty());
                let tail = group_rec(records.skip(1), Seq::empty());
                let out = group_rec(records, acc);
                assert(out.last() == tail.last());
            },
            LineRecord::Paragraph(text) => {
                assert(records.len() >= 2);
                assert(records.skip(1).last() == records.last());
                lemma_group_rec_trailing(records.skip(1), Seq::empty());
                let tail = group_rec(records.skip(1), Seq::empty());
                let out = group_rec(records, acc);
                assert(out.last() == tail.last());
            },
        }
    }
}

/// Law: a record sequence ending in a list item groups to a tree ending in a
/// list node: a trailing run is flushed, nothing is lost at end of input.
pub proof fn lemma_group_trailing_list(records: Seq<LineRecord>)
    requires
        records.len() > 0,
        records.last() is ListItem,
    ensures
        group_records(records).len() > 0,
        group_records(records).last() is List,
{
    lemma_group_rec_trailing(records, Seq::empty());
}

/// The items of the open run, empty when no run is open.
spec fn acc_view(current: &Option<Vec<String>>) -> Seq<Seq<char>> {
    match current {
        Option::Some(items) => items.deep_view(),
        Option::None => Seq::empty(),
    }
}

/// Groups the records of the abstract sequence into a content tree.
pub fn build_content_tree_from_ast(ast: AST) -> (result: ContentTree)
    ensures
        result@ == group_records(ast@.elements),
{
    let ghost records = ast@.elements;
    let mut result = ContentTree::new();
    let mut current_list: Option<Vec<String>> = Option::None;
    let mut idx: usize = 0;
    proof {
        assert(records.skip(0) =~= records);
        assert(result@ + group_rec(records, acc_view(&current_list)) =~= group_records(records));
    }
    while idx < ast.elements.len()
        invariant
            idx <= ast.elements.len(),
            records == ast@.elements,
            group_records(records) == result@ + group_rec(
                records.skip(idx as int),
                acc_view(&current_list),
            ),
            match current_list {
                Option::Some(items) => items@.len() > 0,
                Option::None => true,
            },
        decreases ast.elements.len() - idx,
    {
        let ghost rem = records.skip(idx as int);
        let ghost acc0 = acc_view(&current_list);
        let ghost tree0 = result@;
        proof {
            assert(rem[0] == records[idx as int]);
            assert(rem.skip(1) =~= records.skip(idx + 1));
        }
        let element = &ast.elements[idx];
        match element {
            ASTElement::ListElement(text) => {
                let mut items = match current_list {
                    Option::Some(items) => items,
                    Option::None => Vec::new(),
                };
                items.push(text.clone());
                current_list = Option::Some(items);
                proof {
                    assert(acc_view(&current_list) =~= acc0.push(text@));
                }
            },
            ASTElement::Header(text) => {
                match current_list {
                    Option::Some(items) => {
                        proof {
                            assert(items.deep_view().len() == items@.len());
                        }
                        result.push_element(ContentTreeElement::List(items));
                    },
                    Option::None => {},
                }
                current_list = Option::None;
                result.push_element(ContentTreeElement::Header(text.clone()));
                proof {
                    assert(result@ =~= (tree0 + flush_acc(acc0)) + seq![
                        ContentNode::Header(text@),
                    ]);
                    assert((tree0 + flush_acc(acc0)) + seq![ContentNode::Header(text@)] + group_rec(
                        records.skip(idx + 1),
                        Seq::empty(),
                    ) =~= tree0 + (flush_acc(acc0) + seq![ContentNode::Header(text@)] + group_rec(
                        records.skip(idx + 1),
                        Seq::empty(),
                    )));
                }
            },
            ASTElement::Paragraph(text) => {
                match current_list {
                    Option::Some(items) => {
                        proof {
                            assert(items.deep_view().len() == items@.len());
                        }
                        result.push_element(ContentTreeElement::List(items));
                    },
                    Option::None => {},
                }
                current_list = Option::None;
                result.push_element(ContentTreeElement::Paragraph(text.clone()));
                proof {
                    assert(result@ =~= (tree0 + flush_acc(acc0)) + seq![
                        ContentNode::Paragraph(text@),
                    ]);
                    assert((tree0 + flush_acc(acc0)) + seq![ContentNode::Paragraph(text@)]
                        + group_rec(records.skip(idx + 1), Seq::empty()) =~= tree0 + (flush_acc(
                        acc0,
                    ) + seq![ContentNode::Paragraph(text@)] + group_rec(
                        records.skip(idx + 1),
                        Seq::empty(),
                    )));
                }
            },
        }
        idx = idx + 1;
    }
    let ghost acc_end = acc_view(&current_list);
    let ghost tree_end = result@;
    proof {
        assert(records.skip(records.len() as int) =~= Seq::<LineRecord>::empty());
        assert(group_records(records) == tree_end + flush_acc(acc_end));
    }
    // A run still open at the end flushes as a trailing list node.
    match current_list {
        Option::Some(items) => {
            proof {
                assert(items.deep_view().len() == items@.len());
            }
            result.push_element(ContentTreeElement::List(items));
            proof {
                assert(result@ =~= tree_end + flush_acc(acc_end));
            }
        },
        Option::None => {
            proof {
                assert(result@ =~= tree_end + flush_acc(acc_end));
            }
        },
    }
    result
}

} // verus!
