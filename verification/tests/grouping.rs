use ssg::build_ast;
use ssg::build_content_tree_from_ast;
use ssg::ContentTree;
use ssg::ContentTreeElement;

/// Drains the tree into a vector in tree order.
fn nodes_of(mut tree: ContentTree) -> Vec<ContentTreeElement> {
    let mut reversed = Vec::new();
    while let Some(node) = tree.pop_element() {
        reversed.push(node);
    }
    reversed.reverse();
    reversed
}

fn group_text(input: &str) -> Vec<ContentTreeElement> {
    nodes_of(build_content_tree_from_ast(build_ast(input, "t")))
}

fn is_header(node: &ContentTreeElement, text: &str) -> bool {
    matches!(node, ContentTreeElement::Header(t) if t == text)
}

fn is_paragraph(node: &ContentTreeElement, text: &str) -> bool {
    matches!(node, ContentTreeElement::Paragraph(t) if t == text)
}

fn is_list(node: &ContentTreeElement, items: &[&str]) -> bool {
    match node {
        ContentTreeElement::List(got) => {
            got.len() == items.len() && got.iter().zip(items.iter()).all(|(a, b)| a == b)
        },
        _ => false,
    }
}

#[test]
fn scenario_groups_nodes() {
    let input = "* Title Line\nSome paragraph text\n+ item one\n+ item two\nAnother paragraph";
    let nodes = group_text(input);
    assert_eq!(nodes.len(), 4);
    assert!(is_header(&nodes[0], "Title Line"));
    assert!(is_paragraph(&nodes[1], "Some paragraph text"));
    assert!(is_list(&nodes[2], &["item one", "item two"]));
    assert!(is_paragraph(&nodes[3], "Another paragraph"));
}

#[test]
fn single_run_groups_to_one_list() {
    let nodes = group_text("+ one\n+ two\n+ three");
    assert_eq!(nodes.len(), 1);
    assert!(is_list(&nodes[0], &["one", "two", "three"]));
}

#[test]
fn blank_lines_do_not_split_a_run() {
    // blank lines emit no record, so the run stays one list
    let nodes = group_text("+ one\n\n+ two");
    assert_eq!(nodes.len(), 1);
    assert!(is_list(&nodes[0], &["one", "two"]));
}

#[test]
fn trailing_run_flushes_to_a_list() {
    let nodes = group_text("opening words\n+ one\n+ two");
    assert_eq!(nodes.len(), 2);
    assert!(is_paragraph(&nodes[0], "opening words"));
    assert!(is_list(&nodes[1], &["one", "two"]));
}

#[test]
fn interrupted_runs_make_separate_lists() {
    let nodes = group_text("+ one\nbetween\n+ two");
    assert_eq!(nodes.len(), 3);
    assert!(is_list(&nodes[0], &["one"]));
    assert!(is_paragraph(&nodes[1], "between"));
    assert!(is_list(&nodes[2], &["two"]));
}

#[test]
fn header_closes_a_run() {
    let nodes = group_text("+ one\n* head\n+ two");
    assert_eq!(nodes.len(), 3);
    assert!(is_list(&nodes[0], &["one"]));
    assert!(is_header(&nodes[1], "head"));
    assert!(is_list(&nodes[2], &["two"]));
}

#[test]
fn empty_input_produces_an_empty_tree() {
    let nodes = group_text("");
    assert_eq!(nodes.len(), 0);
}

#[test]
fn content_tree_push_and_pop() {
    let mut tree = ContentTree::new();
    assert!(tree.pop_element().is_none());
    tree.push_element(ContentTreeElement::Paragraph("p".to_string()));
    tree.push_element(ContentTreeElement::List(vec!["a".to_string()]));
    let last = tree.pop_element().unwrap();
    assert!(is_list(&last, &["a"]));
    let first = tree.pop_element().unwrap();
    assert!(is_paragraph(&first, "p"));
    assert!(tree.pop_element().is_none());
}
