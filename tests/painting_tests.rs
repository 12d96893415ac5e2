use robinson::css::{Color, Declaration, Rule, Selector, SimpleSelector, StyleSheet, Unit, Value};
use robinson::dom::{elem, Node};
use robinson::layout::{empty_dimensions, layout_tree, Rect};
use robinson::painting::{build_display_list, paint, Canvas, DisplayCommand};
use robinson::style::style_tree;

fn s(x: &str) -> String {
    x.to_string()
}

fn rule(class: &str, decls: Vec<(&str, Value)>) -> Rule {
    Rule {
        selectors: vec![Selector::Simple(SimpleSelector { tag_name: None, id: None, class: vec![s(class)] })],
        declarations: decls.into_iter().map(|(n, v)| Declaration { name: s(n), value: v }).collect(),
    }
}

fn el(class: &str, children: Vec<Node>) -> Node {
    elem(s("div"), vec![(s("class"), s(class))], children)
}

fn px(n: i64) -> Value {
    Value::Length(n, Unit::Px)
}

const RED: Color = Color { r: 255, g: 0, b: 0, a: 255 };
const BLUE: Color = Color { r: 0, g: 0, b: 255, a: 255 };
const WHITE: Color = Color { r: 255, g: 255, b: 255, a: 255 };

fn render(root: &Node, ss: &StyleSheet, w: i64, h: i64) -> Canvas {
    let styled = style_tree(root, ss);
    let mut vp = empty_dimensions();
    vp.content.width = w;
    vp.content.height = h;
    let laid = layout_tree(&styled, vp);
    paint(&laid, vp.content)
}

fn at(c: &Canvas, x: usize, y: usize) -> Color {
    c.pixels[y * c.width + x]
}

#[test]
fn full_canvas_block_paints_every_pixel() {
    let ss = StyleSheet {
        rules: vec![rule("b", vec![("display", Value::Keyword(s("block"))), ("height", px(5)), ("background", Value::ColorValue(RED))])],
    };
    let c = render(&el("b", vec![]), &ss, 10, 5);
    assert_eq!(c.width, 10);
    assert_eq!(c.height, 5);
    assert_eq!(c.pixels.len(), 50);
    assert!(c.pixels.iter().all(|p| *p == RED));
}

#[test]
fn zero_size_box_paints_nothing() {
    let ss = StyleSheet {
        rules: vec![rule("b", vec![("display", Value::Keyword(s("block"))), ("width", px(0)), ("background", Value::ColorValue(RED))])],
    };
    let c = render(&el("b", vec![]), &ss, 8, 4);
    assert_eq!(c.pixels.len(), 32);
    assert!(c.pixels.iter().all(|p| *p == WHITE));
}

#[test]
fn borders_fill_their_edges() {
    let ss = StyleSheet {
        rules: vec![rule("b", vec![
            ("display", Value::Keyword(s("block"))),
            ("height", px(2)),
            ("border-width", px(1)),
            ("border-color", Value::ColorValue(BLUE)),
        ])],
    };
    let c = render(&el("b", vec![]), &ss, 6, 4);
    for y in 0..4 {
        for x in 0..6 {
            let edge = x == 0 || x == 5 || y == 0 || y == 3;
            assert_eq!(at(&c, x, y), if edge { BLUE } else { WHITE }, "pixel {} {}", x, y);
        }
    }
}

#[test]
fn children_paint_over_parents_and_are_clipped() {
    let ss = StyleSheet {
        rules: vec![
            rule("p", vec![("display", Value::Keyword(s("block"))), ("background", Value::ColorValue(BLUE))]),
            rule("c", vec![("display", Value::Keyword(s("block"))), ("height", px(3)), ("width", px(20)), ("background", Value::ColorValue(RED))]),
        ],
    };
    let root = el("p", vec![el("c", vec![]), el("c", vec![])]);
    let c = render(&root, &ss, 10, 8);
    for y in 0..8 {
        for x in 0..10 {
            assert_eq!(at(&c, x, y), if y < 6 { RED } else { WHITE });
        }
    }
}

#[test]
fn display_list_puts_background_before_children() {
    let ss = StyleSheet {
        rules: vec![
            rule("p", vec![("display", Value::Keyword(s("block"))), ("background", Value::ColorValue(BLUE))]),
            rule("c", vec![("display", Value::Keyword(s("block"))), ("height", px(3)), ("background", Value::ColorValue(RED))]),
        ],
    };
    let root = el("p", vec![el("c", vec![])]);
    let styled = style_tree(&root, &ss);
    let mut vp = empty_dimensions();
    vp.content.width = 10;
    let laid = layout_tree(&styled, vp);
    let list = build_display_list(&laid);
    assert_eq!(list, vec![
        DisplayCommand::SolidColor(BLUE, Rect { x: 0, y: 0, width: 10, height: 3 }),
        DisplayCommand::SolidColor(RED, Rect { x: 0, y: 0, width: 10, height: 3 }),
    ]);
}
