use robinson::css::{Declaration, Rule, Selector, SimpleSelector, StyleSheet, Unit, Value};
use robinson::dom::{elem, text, Node};
use robinson::layout::{build_layout_tree, empty_dimensions, layout_tree, BoxType, Dimensions, LayoutBox};
use robinson::style::style_tree;

fn s(x: &str) -> String {
    x.to_string()
}

fn class_attr(c: &str) -> Vec<(String, String)> {
    vec![(s("class"), s(c))]
}

fn rule(class: &str, decls: Vec<(&str, Value)>) -> Rule {
    Rule {
        selectors: vec![Selector::Simple(SimpleSelector { tag_name: None, id: None, class: vec![s(class)] })],
        declarations: decls.into_iter().map(|(n, v)| Declaration { name: s(n), value: v }).collect(),
    }
}

fn kw(x: &str) -> Value {
    Value::Keyword(s(x))
}

fn px(n: i64) -> Value {
    Value::Length(n, Unit::Px)
}

fn sheet() -> StyleSheet {
    StyleSheet {
        rules: vec![
            rule("b", vec![("display", kw("block"))]),
            rule("i", vec![("display", kw("inline"))]),
            rule("n", vec![("display", kw("none"))]),
        ],
    }
}

fn el(class: &str, children: Vec<Node>) -> Node {
    elem(s("div"), class_attr(class), children)
}

fn is_anon(b: &LayoutBox) -> bool {
    matches!(b.box_type, BoxType::AnonymousBlock)
}

fn is_block(b: &LayoutBox) -> bool {
    matches!(b.box_type, BoxType::BlockNode(_))
}

fn is_inline(b: &LayoutBox) -> bool {
    matches!(b.box_type, BoxType::InlineNode(_))
}

fn count_boxes(b: &LayoutBox) -> usize {
    1 + b.children.iter().map(count_boxes).sum::<usize>()
}

fn same_geometry(x: &LayoutBox, y: &LayoutBox) {
    assert_eq!(x.dimensions, y.dimensions);
    assert_eq!(x.children.len(), y.children.len());
    for (p, q) in x.children.iter().zip(y.children.iter()) {
        same_geometry(p, q);
    }
}

fn viewport(width: i64) -> Dimensions {
    let mut d = empty_dimensions();
    d.content.width = width;
    d
}

#[test]
fn inline_runs_are_wrapped_beside_blocks() {
    let root = el("b", vec![el("i", vec![]), el("b", vec![]), el("i", vec![]), el("i", vec![])]);
    let ss = sheet();
    let styled = style_tree(&root, &ss);
    let tree = build_layout_tree(&styled);
    assert!(is_block(&tree));
    assert_eq!(tree.children.len(), 3);
    assert!(is_anon(&tree.children[0]));
    assert_eq!(tree.children[0].children.len(), 1);
    assert!(is_inline(&tree.children[0].children[0]));
    assert!(is_block(&tree.children[1]));
    assert!(is_anon(&tree.children[2]));
    assert_eq!(tree.children[2].children.len(), 2);
    assert!(tree.children[2].children.iter().all(is_inline));
}

#[test]
fn inline_children_of_block_without_block_children_stay_unwrapped() {
    let root = el("b", vec![el("i", vec![]), text(s("t")), el("i", vec![])]);
    let ss = sheet();
    let styled = style_tree(&root, &ss);
    let tree = build_layout_tree(&styled);
    assert_eq!(tree.children.len(), 3);
    assert!(tree.children.iter().all(is_inline));
}

#[test]
fn hidden_subtree_produces_no_boxes() {
    let hidden = el("n", vec![el("b", vec![el("b", vec![])]), el("i", vec![])]);
    let root = el("b", vec![el("b", vec![]), hidden, el("i", vec![])]);
    let ss = sheet();
    let styled = style_tree(&root, &ss);
    let tree = build_layout_tree(&styled);
    assert_eq!(tree.children.len(), 2);
    assert!(is_block(&tree.children[0]));
    assert!(is_anon(&tree.children[1]));
    assert_eq!(count_boxes(&tree), 4);
}

#[test]
fn auto_margins_center_fixed_width_children() {
    let ss = StyleSheet {
        rules: vec![
            rule("root", vec![("display", kw("block")), ("width", px(400))]),
            rule("c", vec![("display", kw("block")), ("width", px(100)), ("margin-left", kw("auto")), ("margin-right", kw("auto"))]),
        ],
    };
    let root = el("root", vec![el("c", vec![]), el("c", vec![])]);
    let styled = style_tree(&root, &ss);
    let laid = layout_tree(&styled, viewport(800));
    assert_eq!(laid.dimensions.content.width, 400);
    assert_eq!(laid.dimensions.margin.right, 400);
    for c in &laid.children {
        assert_eq!(c.dimensions.content.width, 100);
        assert_eq!(c.dimensions.margin.left, 150);
        assert_eq!(c.dimensions.margin.right, 150);
        assert_eq!(c.dimensions.content.x, 150);
    }
}

#[test]
fn siblings_stack_by_margin_box_height() {
    let ss = StyleSheet {
        rules: vec![
            rule("b", vec![("display", kw("block"))]),
            rule("h50", vec![("height", px(40)), ("margin-top", px(5)), ("margin-bottom", px(5))]),
            rule("h30", vec![("height", px(30))]),
        ],
    };
    let root = elem(s("div"), class_attr("b"), vec![
        elem(s("div"), class_attr("b h50"), vec![]),
        elem(s("div"), class_attr("b h30"), vec![]),
    ]);
    let styled = style_tree(&root, &ss);
    let laid = layout_tree(&styled, viewport(200));
    let first = &laid.children[0].dimensions;
    let second = &laid.children[1].dimensions;
    assert_eq!(first.content.y, 5);
    let first_top = first.content.y - first.margin.top;
    let second_top = second.content.y - second.margin.top;
    assert_eq!(second_top, first_top + 50);
    assert_eq!(laid.dimensions.content.height, 80);
}

#[test]
fn auto_width_fills_containing_block() {
    let ss = StyleSheet {
        rules: vec![rule("b", vec![("display", kw("block")), ("padding", px(10)), ("border-width", px(2)), ("margin", px(3))])],
    };
    let root = el("b", vec![]);
    let styled = style_tree(&root, &ss);
    let laid = layout_tree(&styled, viewport(300));
    assert_eq!(laid.dimensions.content.width, 300 - 2 * (10 + 2 + 3));
    assert_eq!(laid.dimensions.content.x, 15);
    assert_eq!(laid.dimensions.content.y, 15);
    assert_eq!(laid.dimensions.content.height, 0);
}

#[test]
fn overflowing_width_takes_space_from_right_margin() {
    let ss = StyleSheet {
        rules: vec![rule("b", vec![("display", kw("block")), ("width", px(500)), ("margin-left", kw("auto"))])],
    };
    let root = el("b", vec![]);
    let styled = style_tree(&root, &ss);
    let laid = layout_tree(&styled, viewport(300));
    assert_eq!(laid.dimensions.content.width, 500);
    assert_eq!(laid.dimensions.margin.left, 0);
    assert_eq!(laid.dimensions.margin.right, -200);
}

#[test]
fn odd_free_space_gives_right_margin_the_extra_pixel() {
    let ss = StyleSheet {
        rules: vec![rule("b", vec![("display", kw("block")), ("width", px(100)), ("margin", kw("auto"))])],
    };
    let root = el("b", vec![]);
    let styled = style_tree(&root, &ss);
    let laid = layout_tree(&styled, viewport(301));
    assert_eq!(laid.dimensions.margin.left, 100);
    assert_eq!(laid.dimensions.margin.right, 101);
}

#[test]
fn layout_twice_gives_identical_dimensions() {
    let ss = StyleSheet {
        rules: vec![
            rule("b", vec![("display", kw("block")), ("padding", px(4))]),
            rule("i", vec![("display", kw("inline"))]),
        ],
    };
    let root = el("b", vec![el("i", vec![]), el("b", vec![el("b", vec![])]), el("i", vec![])]);
    let styled = style_tree(&root, &ss);
    let a = layout_tree(&styled, viewport(640));
    let b = layout_tree(&styled, viewport(640));
    same_geometry(&a, &b);
}
