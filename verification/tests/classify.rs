use ssg::build_ast;
use ssg::ASTElement;
use ssg::AST;

fn header(text: &str) -> ASTElement {
    ASTElement::Header(text.to_string())
}

fn paragraph(text: &str) -> ASTElement {
    ASTElement::Paragraph(text.to_string())
}

fn list_element(text: &str) -> ASTElement {
    ASTElement::ListElement(text.to_string())
}

fn same_element(left: &ASTElement, right: &ASTElement) -> bool {
    match (left, right) {
        (ASTElement::Header(a), ASTElement::Header(b)) => a == b,
        (ASTElement::Paragraph(a), ASTElement::Paragraph(b)) => a == b,
        (ASTElement::ListElement(a), ASTElement::ListElement(b)) => a == b,
        _ => false,
    }
}

fn assert_elements(ast: &AST, expected: &[ASTElement]) {
    assert_eq!(ast.elements.len(), expected.len());
    for (got, want) in ast.elements.iter().zip(expected.iter()) {
        assert!(same_element(got, want));
    }
}

#[test]
fn scenario_classifies_records() {
    let input = "* Title Line\nSome paragraph text\n+ item one\n+ item two\nAnother paragraph";
    let ast = build_ast(input, "the title");
    assert_eq!(ast.title, "the title");
    assert_elements(
        &ast,
        &[
            header("Title Line"),
            paragraph("Some paragraph text"),
            list_element("item one"),
            list_element("item two"),
            paragraph("Another paragraph"),
        ],
    );
}

#[test]
fn record_count_matches_nonblank_lines() {
    let input = "first\n\n   \n* heading\n+ item\n\t\nlast\n";
    let ast = build_ast(input, "t");
    // four non-blank lines once trimmed
    assert_eq!(ast.elements.len(), 4);
}

#[test]
fn whitespace_padding_classifies_identically() {
    let plain = build_ast("* Title", "t");
    let padded = build_ast("   * Title\t ", "t");
    assert_elements(&plain, &[header("Title")]);
    assert_elements(&padded, &[header("Title")]);

    let plain = build_ast("+ item", "t");
    let padded = build_ast("\u{a0}+ item\u{2003}", "t");
    assert_elements(&plain, &[list_element("item")]);
    assert_elements(&padded, &[list_element("item")]);
}

#[test]
fn any_line_ending_convention_is_accepted() {
    let ast = build_ast("one\r\ntwo\nthree\r\n", "t");
    assert_elements(&ast, &[paragraph("one"), paragraph("two"), paragraph("three")]);
}

#[test]
fn short_marker_lines_degrade_to_empty_content() {
    assert_elements(&build_ast("*", "t"), &[header("")]);
    assert_elements(&build_ast("*x", "t"), &[header("")]);
    assert_elements(&build_ast("+", "t"), &[list_element("")]);
    assert_elements(&build_ast("+x", "t"), &[list_element("")]);
}

#[test]
fn marker_separator_is_one_character() {
    // the character right after the marker separates; everything after it is content
    assert_elements(&build_ast("*ab", "t"), &[header("b")]);
    assert_elements(&build_ast("* a b", "t"), &[header("a b")]);
}

#[test]
fn multibyte_characters_are_handled() {
    assert_elements(&build_ast("* T\u{e9}st", "t"), &[header("T\u{e9}st")]);
    assert_elements(&build_ast("+ \u{65e5}\u{672c}", "t"), &[list_element("\u{65e5}\u{672c}")]);
    assert_elements(&build_ast("\u{65e5}\u{672c}\u{8a9e}", "t"), &[paragraph("\u{65e5}\u{672c}\u{8a9e}")]);
}

#[test]
fn paragraphs_keep_their_text_verbatim() {
    let ast = build_ast("  - not a marker  ", "t");
    assert_elements(&ast, &[paragraph("- not a marker")]);
}

#[test]
fn blank_input_produces_no_records() {
    assert_eq!(build_ast("", "t").elements.len(), 0);
    assert_eq!(build_ast("   \n\t\n\n", "t").elements.len(), 0);
}

#[test]
fn title_is_kept() {
    let ast = build_ast("body", "My Page");
    assert_eq!(ast.title, "My Page");
}

#[test]
fn ast_push_and_pop() {
    let mut ast = AST::new("t".to_string());
    assert!(ast.pop_element().is_none());
    ast.push_element(paragraph("one"));
    ast.push_element(header("two"));
    let last = ast.pop_element().unwrap();
    assert!(same_element(&last, &header("two")));
    let first = ast.pop_element().unwrap();
    assert!(same_element(&first, &paragraph("one")));
    assert!(ast.pop_element().is_none());
}
