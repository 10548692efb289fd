use ssg::build_ast;
use ssg::build_content_tree_from_ast;
use ssg::build_site;
use ssg::build_site_content_from_content_tree;

fn render_text(input: &str) -> String {
    let ast = build_ast(input, "t");
    let tree = build_content_tree_from_ast(ast);
    build_site_content_from_content_tree(tree)
}

#[test]
fn scenario_renders_fragment() {
    let input = "* Title Line\nSome paragraph text\n+ item one\n+ item two\nAnother paragraph";
    let expected = "<p>Title Line</p>\nSome paragraph text\n<ul>\n\t<li>item one</li>\n\t<li>item two</li>\n</ul>\nAnother paragraph\n";
    assert_eq!(render_text(input), expected);
    assert_eq!(build_site(input, "t"), expected);
}

#[test]
fn empty_input_renders_an_empty_fragment() {
    assert_eq!(build_site("", "t"), "");
    assert_eq!(build_site("  \n\n\t\n", "t"), "");
}

#[test]
fn headers_render_as_paragraph_tags() {
    // the format renders headers with <p>, not a heading tag
    assert_eq!(build_site("* Hi", "t"), "<p>Hi</p>\n");
}

#[test]
fn paragraphs_render_bare() {
    assert_eq!(build_site("just text", "t"), "just text\n");
}

#[test]
fn lists_render_as_ul_blocks() {
    assert_eq!(
        build_site("+ one\n+ two", "t"),
        "<ul>\n\t<li>one</li>\n\t<li>two</li>\n</ul>\n"
    );
}

#[test]
fn text_is_not_escaped() {
    assert_eq!(build_site("<b>&raw</b>", "t"), "<b>&raw</b>\n");
}

#[test]
fn rendering_twice_is_byte_identical() {
    let input = "* h\npara\n+ a\n+ b";
    let first = render_text(input);
    let second = render_text(input);
    assert_eq!(first, second);
    assert_eq!(first.as_bytes(), second.as_bytes());
}
