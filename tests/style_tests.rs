use robinson::css::{
    specificity_le, Color, Declaration, Rule, Selector, SimpleSelector, StyleSheet, Unit, Value,
};
use robinson::dom::{elem, has_field, text, ElementData, Node};
use robinson::style::{match_rule, style_tree, Display};

fn s(x: &str) -> String {
    x.to_string()
}

fn attrs(pairs: &[(&str, &str)]) -> Vec<(String, String)> {
    pairs.iter().map(|(k, v)| (s(k), s(v))).collect()
}

fn sel(tag: Option<&str>, id: Option<&str>, classes: &[&str]) -> Selector {
    Selector::Simple(SimpleSelector {
        tag_name: tag.map(s),
        id: id.map(s),
        class: classes.iter().map(|c| s(c)).collect(),
    })
}

fn kw(x: &str) -> Value {
    Value::Keyword(s(x))
}

fn decl(name: &str, value: Value) -> Declaration {
    Declaration { name: s(name), value }
}

fn element(n: &Node) -> &ElementData {
    match &n.node_type {
        robinson::dom::NodeType::Element(e) => e,
        _ => panic!("not an element"),
    }
}

fn keyword_of(v: Option<Value>) -> Option<String> {
    match v {
        Some(Value::Keyword(k)) => Some(k),
        _ => None,
    }
}

#[test]
fn first_matching_selector_gives_specificity() {
    let node = elem(s("div"), attrs(&[("class", "highlight")]), vec![]);
    let e = element(&node);
    let tag_first = Rule { selectors: vec![sel(Some("div"), None, &[]), sel(None, None, &["highlight"])], declarations: vec![] };
    let class_first = Rule { selectors: vec![sel(None, None, &["highlight"]), sel(Some("div"), None, &[])], declarations: vec![] };
    assert_eq!(match_rule(e, &tag_first).map(|m| m.0), Some((0, 0, 1)));
    assert_eq!(match_rule(e, &class_first).map(|m| m.0), Some((0, 1, 0)));
}

#[test]
fn rule_without_matching_selector_is_skipped() {
    let node = elem(s("p"), attrs(&[("id", "x")]), vec![]);
    let e = element(&node);
    let rule = Rule { selectors: vec![sel(Some("div"), None, &[]), sel(None, Some("y"), &[])], declarations: vec![] };
    assert!(match_rule(e, &rule).is_none());
    let rule2 = Rule { selectors: vec![sel(Some("p"), Some("x"), &[])], declarations: vec![] };
    assert_eq!(match_rule(e, &rule2).map(|m| m.0), Some((1, 0, 1)));
}

#[test]
fn later_rule_of_equal_specificity_wins() {
    let node = elem(s("div"), vec![], vec![]);
    let sheet = StyleSheet {
        rules: vec![
            Rule { selectors: vec![sel(Some("div"), None, &[])], declarations: vec![decl("display", kw("inline"))] },
            Rule { selectors: vec![sel(Some("div"), None, &[])], declarations: vec![decl("display", kw("block"))] },
        ],
    };
    let styled = style_tree(&node, &sheet);
    assert_eq!(keyword_of(styled.value("display")), Some(s("block")));
    assert_eq!(styled.display(), Display::Block);
}

#[test]
fn higher_specificity_wins_over_later_rule() {
    let node = elem(s("div"), attrs(&[("id", "main")]), vec![]);
    let sheet = StyleSheet {
        rules: vec![
            Rule { selectors: vec![sel(None, Some("main"), &[])], declarations: vec![decl("display", kw("none"))] },
            Rule { selectors: vec![sel(Some("div"), None, &[])], declarations: vec![decl("display", kw("block"))] },
        ],
    };
    let styled = style_tree(&node, &sheet);
    assert_eq!(styled.display(), Display::Hidden);
}

#[test]
fn styling_twice_gives_same_values() {
    let node = elem(s("div"), attrs(&[("class", "a b")]), vec![text(s("hi"))]);
    let sheet = StyleSheet {
        rules: vec![Rule {
            selectors: vec![sel(None, None, &["b"])],
            declarations: vec![decl("width", Value::Length(40, Unit::Px)), decl("color", Value::ColorValue(Color { r: 1, g: 2, b: 3, a: 4 }))],
        }],
    };
    let a = style_tree(&node, &sheet);
    let b = style_tree(&node, &sheet);
    for name in ["width", "color", "height"] {
        let va = a.value(name);
        let vb = b.value(name);
        match (va, vb) {
            (Some(Value::Length(x, _)), Some(Value::Length(y, _))) => assert_eq!(x, y),
            (Some(Value::ColorValue(x)), Some(Value::ColorValue(y))) => assert_eq!(x, y),
            (None, None) => {}
            _ => panic!("values differ"),
        }
    }
    assert_eq!(a.children.len(), 1);
    assert!(a.children[0].value("width").is_none());
}

#[test]
fn specificity_order_is_lexicographic_and_total() {
    assert!(specificity_le((0, 5, 5), (1, 0, 0)));
    assert!(!specificity_le((1, 0, 0), (0, 5, 5)));
    assert!(specificity_le((0, 1, 2), (0, 1, 2)));
    assert!(specificity_le((0, 1, 2), (0, 2, 0)));
    assert!(specificity_le((0, 1, 2), (0, 1, 3)));
    let samples = [(0, 0, 0), (0, 0, 1), (0, 1, 0), (1, 0, 0), (0, 1, 1)];
    for a in samples {
        for b in samples {
            assert!(specificity_le(a, b) || specificity_le(b, a));
            if specificity_le(a, b) && specificity_le(b, a) {
                assert_eq!(a, b);
            }
        }
    }
}

#[test]
fn lookup_uses_fallback_then_default() {
    let node = elem(s("div"), vec![], vec![]);
    let sheet = StyleSheet {
        rules: vec![Rule { selectors: vec![sel(None, None, &[])], declarations: vec![decl("margin", Value::Length(7, Unit::Px))] }],
    };
    let styled = style_tree(&node, &sheet);
    let zero = Value::Length(0, Unit::Px);
    assert!(matches!(styled.lookup("margin-left", "margin", &zero), Value::Length(7, Unit::Px)));
    assert!(matches!(styled.lookup("padding-left", "padding", &zero), Value::Length(0, Unit::Px)));
}

#[test]
fn display_defaults_to_inline() {
    let node = elem(s("span"), vec![], vec![]);
    let sheet = StyleSheet { rules: vec![Rule { selectors: vec![sel(Some("span"), None, &[])], declarations: vec![decl("display", kw("flex"))] }] };
    assert_eq!(style_tree(&node, &sheet).display(), Display::Inline);
    let plain = StyleSheet { rules: vec![] };
    assert_eq!(style_tree(&node, &plain).display(), Display::Inline);
}

#[test]
fn text_nodes_get_no_properties() {
    let node = text(s("hello"));
    let sheet = StyleSheet { rules: vec![Rule { selectors: vec![sel(None, None, &[])], declarations: vec![decl("display", kw("block"))] }] };
    let styled = style_tree(&node, &sheet);
    assert!(styled.value("display").is_none());
}

#[test]
fn class_and_id_filters() {
    let node = elem(s("div"), attrs(&[("id", "top"), ("class", "x  yz")]), vec![]);
    let e = element(&node);
    assert_eq!(e.id().map(|v| v.as_str()), Some("top"));
    assert!(e.has_class(&s("yz")));
    assert!(e.has_class(&s("x")));
    assert!(!e.has_class(&s("y")));
    assert!(!e.has_class(&s("x yz")));
    let missing = elem(s("div"), vec![], vec![]);
    assert!(element(&missing).id().is_none());
    assert!(!element(&missing).has_class(&s("x")));
}

#[test]
fn fields_split_on_spaces() {
    let c: Vec<char> = "ab cd".chars().collect();
    assert!(has_field(&c, &"cd".chars().collect()));
    assert!(!has_field(&c, &"b".chars().collect()));
    assert!(!has_field(&c, &"abc".chars().collect()));
}
