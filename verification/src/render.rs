//! The HTML renderer: emits each content node in tree order. Headers render
//! as `<p>` tags (kept for compatibility with the format's observed
//! behaviour), paragraphs render bare, lists as `<ul>` blocks. No character is
//! escaped: text is inserted verbatim.
use vstd::prelude::*;
use vstd::string::StringExecFns;

use crate::tree::ContentNode;
use crate::tree::ContentTree;
use crate::tree::ContentTreeElement;

verus! {

/// The rendering of one list item: a tab-indented `<li>` line.
pub open spec fn render_item(item: Seq<char>) -> Seq<char> {
    "\t<li>"@ + item + "</li>\n"@
}

/// The renderings of the items of one list, concatenated in order.
pub open spec fn render_items(items: Seq<Seq<char>>) -> Seq<char>
    decreases items.len(),
{
    if items.len() == 0 {
        Seq::empty()
    } else {
        render_item(items[0]) + render_items(items.skip(1))
    }
}

/// The rendering of one content node.
pub open spec fn render_node(node: ContentNode) -> Seq<char> {
    match node {
        ContentNode::Header(text) => "<p>"@ + text + "</p>\n"@,
        ContentNode::Paragraph(text) => text + "\n"@,
        ContentNode::List(items) => "<ul>\n"@ + render_items(items) + "</ul>\n"@,
    }
}

/// The HTML fragment of a content tree: the renderings of its nodes,
/// concatenated in tree order.
pub open spec fn render_nodes(nodes: Seq<ContentNode>) -> Seq<char>
    decreases nodes.len(),
{
    if nodes.len() == 0 {
        Seq::empty()
    } else {
        render_node(nodes[0]) + render_nodes(nodes.skip(1))
    }
}

/// Renders the content tree into a single HTML fragment.
pub fn build_site_content_from_content_tree(content: ContentTree) -> (result: String)
    ensures
        result@ == render_nodes(content@),
{
    let ghost nodes = content@;
    let mut result = String::new();
    let mut idx: usize = 0;
    proof {
        assert(nodes.skip(0) =~= nodes);
        assert(result@ + render_nodes(nodes) =~= render_nodes(nodes));
    }
    while idx < content.elements.len()
        invariant
            idx <= content.elements.len(),
            nodes == content@,
            render_nodes(nodes) == result@ + render_nodes(nodes.skip(idx as int)),
        decreases content.elements.len() - idx,
    {
        let ghost rem = nodes.skip(idx as int);
        let ghost out0 = result@;
        proof {
            assert(rem[0] == nodes[idx as int]);
            assert(rem.skip(1) =~= nodes.skip(idx + 1));
        }
        let element = &content.elements[idx];
        match element {
            ContentTreeElement::Header(text) => {
                result.append("<p>");
                result.append(text.as_str());
                result.append("</p>\n");
                proof {
                    assert(result@ =~= out0 + render_node(rem[0]));
                }
            },
            ContentTreeElement::Paragraph(text) => {
                result.append(text.as_str());
                result.append("\n");
                proof {
                    assert(result@ =~= out0 + render_node(rem[0]));
                }
            },
            ContentTreeElement::List(items) => {
                result.append("<ul>\n");
                let ghost item_views = items.deep_view();
                let ghost out1 = result@;
                let mut k: usize = 0;
                proof {
                    assert(item_views.skip(0) =~= item_views);
                    assert(result@ + render_items(item_views) =~= out1 + render_items(item_views));
                }
                while k < items.len()
                    invariant
                        k <= items.len(),
                        item_views == items.deep_view(),
                        result@ + render_items(item_views.skip(k as int)) == out1 + render_items(
                            item_views,
                        ),
                    decreases items.len() - k,
                {
                    let ghost irem = item_views.skip(k as int);
                    let ghost out2 = result@;
                    proof {
                        assert(irem[0] == item_views[k as int]);
                        assert(item_views[k as int] == items@[k as int]@);
                        assert(irem.skip(1) =~= item_views.skip(k + 1));
                    }
                    result.append("\t<li>");
                    result.append(items[k].as_str());
                    result.append("</li>\n");
                    proof {
                        assert(result@ =~= out2 + render_item(irem[0]));
                        assert((out2 + render_item(irem[0])) + render_items(
                            item_views.skip(k + 1),
                        ) =~= out2 + (render_item(irem[0]) + render_items(item_views.skip(k + 1))));
                    }
                    k = k + 1;
                }
                proof {
                    assert(item_views.skip(items.len() as int) =~= Seq::<Seq<char>>::empty());
                    assert(result@ + Seq::<char>::empty() =~= result@);
                }
                result.append("</ul>\n");
                proof {
                    assert(result@ =~= out0 + render_node(rem[0]));
                }
            },
        }
        proof {
            assert((out0 + render_node(rem[0])) + render_nodes(nodes.skip(idx + 1)) =~= out0 + (
            render_node(rem[0]) + render_nodes(nodes.skip(idx + 1))));
        }
        idx = idx + 1;
    }
    proof {
        assert(nodes.skip(nodes.len() as int) =~= Seq::<ContentNode>::empty());
        assert(result@ + Seq::<char>::empty() =~= result@);
    }
    result
}

} // verus!
