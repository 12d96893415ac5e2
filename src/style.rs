//! Selector matching, the cascade, and the styled tree.
use vstd::prelude::*;
use crate::css::{
    Declaration, Rule, Selector, SimpleSelector, Specificity, StyleSheet, Value, spec_le,
    specificity_le,
};
use crate::dom::{ElementData, Node, NodeType};

verus! {

/// Every filter of `selector` is met by `elem`.
pub open spec fn spec_matches_simple(elem: ElementData, selector: SimpleSelector) -> bool {
    &&& (selector.tag_name matches Some(t) ==> elem.tag_name@ == t@)
    &&& (selector.id matches Some(i) ==> elem.attr("id"@) == Some(i@))
    &&& forall|k: int|
        0 <= k < selector.class@.len() ==> elem.has_class_spec(#[trigger] selector.class@[k]@)
}

pub open spec fn spec_matches(elem: ElementData, selector: Selector) -> bool {
    match selector {
        Selector::Simple(s) => spec_matches_simple(elem, s),
    }
}

/// The specificity of the first of `selectors[..n]` that matches `elem`.
pub open spec fn first_match(elem: ElementData, selectors: Seq<Selector>, n: int) -> Option<
    Specificity,
>
    decreases n,
{
    if n <= 0 {
        None
    } else {
        match first_match(elem, selectors, n - 1) {
            Some(s) => Some(s),
            None => if spec_matches(elem, selectors[n - 1]) {
                Some(selectors[n - 1].spec_specificity())
            } else {
                None
            },
        }
    }
}

/// A rule matches when any of its selectors does, with the first one's specificity.
pub open spec fn spec_match_rule(elem: ElementData, rule: Rule) -> Option<Specificity> {
    first_match(elem, rule.selectors@, rule.selectors@.len() as int)
}

/// The rules of `rules[..n]` that match `elem`, in order, with their specificities.
pub open spec fn matched(elem: ElementData, rules: Seq<Rule>, n: int) -> Seq<(Specificity, Rule)>
    decreases n,
{
    if n <= 0 {
        Seq::empty()
    } else {
        let prev = matched(elem, rules, n - 1);
        match spec_match_rule(elem, rules[n - 1]) {
            Some(s) => prev.push((s, rules[n - 1])),
            None => prev,
        }
    }
}

fn matches(elem: &ElementData, selector: &Selector) -> (r: bool)
    ensures
        r == spec_matches(*elem, *selector),
{
    match selector {
        Selector::Simple(simple_selector) => matches_simple_selector(elem, simple_selector),
    }
}

fn matches_simple_selector(elem: &ElementData, selector: &SimpleSelector) -> (r: bool)
    ensures
        r == spec_matches_simple(*elem, *selector),
{
    proof { reveal_strlit("id"); }
    if let Some(name) = &selector.tag_name {
        if elem.tag_name != *name {
            return false;
        }
    }
    if let Some(id) = &selector.id {
        match elem.id() {
            Some(eid) => {
                if *eid != *id {
                    return false;
                }
            },
            None => {
                return false;
            },
        }
    }
    let mut k: usize = 0;
    while k < selector.class.len()
        invariant
            k <= selector.class@.len(),
            forall|j: int| 0 <= j < k ==> elem.has_class_spec(#[trigger] selector.class@[j]@),
        decreases selector.class.len() - k,
    {
        if !elem.has_class(&selector.class[k]) {
            return false;
        }
        k = k + 1;
    }
    true
}

/// The rule with the specificity of its first matching selector, if any selector matches.
pub fn match_rule<'a>(elem: &ElementData, rule: &'a Rule) -> (r: Option<(Specificity, &'a Rule)>)
    ensures
        r matches Some(m) ==> spec_match_rule(*elem, *rule) == Some(m.0) && *m.1 == *rule,
        r is None ==> spec_match_rule(*elem, *rule) is None,
{
    let mut i: usize = 0;
    while i < rule.selectors.len()
        invariant
            i <= rule.selectors@.len(),
            first_match(*elem, rule.selectors@, i as int) is None,
        decreases rule.selectors.len() - i,
    {
        if matches(elem, &rule.selectors[i]) {
            let s = rule.selectors[i].specificity();
            proof {
                lemma_first_match_stays(*elem, rule.selectors@, i as int + 1);
            }
            return Some((s, rule));
        }
        i = i + 1;
    }
    None
}

/// Once found among the first `n` selectors, the first match stays the same.
proof fn lemma_first_match_stays(elem: ElementData, selectors: Seq<Selector>, n: int)
    requires
        0 <= n <= selectors.len(),
        first_match(elem, selectors, n) is Some,
    ensures
        first_match(elem, selectors, selectors.len() as int) == first_match(elem, selectors, n),
    decreases selectors.len() - n,
{
    if n < selectors.len() {
        lemma_first_match_stays(elem, selectors, n + 1);
    }
}

fn matching_rules<'a>(elem: &ElementData, stylesheet: &'a StyleSheet) -> (r: Vec<
    (Specificity, &'a Rule),
>)
    ensures
        r@.len() == matched(*elem, stylesheet.rules@, stylesheet.rules@.len() as int).len(),
        forall|k: int|
            0 <= k < r@.len() ==> (r@[k].0, *r@[k].1) == #[trigger] matched(
                *elem,
                stylesheet.rules@,
                stylesheet.rules@.len() as int,
            )[k],
{
    let mut out: Vec<(Specificity, &'a Rule)> = Vec::new();
    let mut i: usize = 0;
    while i < stylesheet.rules.len()
        invariant
            i <= stylesheet.rules@.len(),
            out@.len() == matched(*elem, stylesheet.rules@, i as int).len(),
            forall|k: int|
                0 <= k < out@.len() ==> (out@[k].0, *out@[k].1) == #[trigger] matched(
                    *elem,
                    stylesheet.rules@,
                    i as int,
                )[k],
        decreases stylesheet.rules.len() - i,
    {
        if let Some(m) = match_rule(elem, &stylesheet.rules[i]) {
            out.push(m);
        }
        i = i + 1;
    }
    out
}

} // verus!

verus! {

/// The map that a list of (name, specificity, value) entries stands for, over its first
/// `n`; where a name occurs twice, its first entry counts.
pub open spec fn table(e: Seq<(String, Specificity, Value)>, n: int) -> Map<
    Seq<char>,
    (Specificity, Value),
>
    decreases n,
{
    if n <= 0 {
        Map::empty()
    } else {
        let m = table(e, n - 1);
        if m.contains_key(e[n - 1].0@) {
            m
        } else {
            m.insert(e[n - 1].0@, (e[n - 1].1, e[n - 1].2))
        }
    }
}

/// `i` is the first entry named `k`.
pub open spec fn first_entry(e: Seq<(String, Specificity, Value)>, k: Seq<char>, i: int) -> bool {
    &&& 0 <= i < e.len()
    &&& e[i].0@ == k
    &&& forall|m: int| 0 <= m < i ==> e[m].0@ != k
}

/// Sets `name` to `v` at specificity `s`, unless it already holds a value of higher
/// specificity.
pub open spec fn put(m: Map<Seq<char>, (Specificity, Value)>, name: Seq<char>, s: Specificity, v: Value) -> Map<
    Seq<char>,
    (Specificity, Value),
> {
    if m.contains_key(name) && !spec_le(m[name].0, s) {
        m
    } else {
        m.insert(name, (s, v))
    }
}

/// Applies the first `n` declarations, in order, at specificity `s`.
pub open spec fn put_decls(
    m: Map<Seq<char>, (Specificity, Value)>,
    decls: Seq<Declaration>,
    s: Specificity,
    n: int,
) -> Map<Seq<char>, (Specificity, Value)>
    decreases n,
{
    if n <= 0 {
        m
    } else {
        let prev = put_decls(m, decls, s, n - 1);
        put(prev, decls[n - 1].name@, s, decls[n - 1].value)
    }
}

/// Applies the first `n` matched rules in order. Since later rules come later, a
/// declaration of equal specificity replaces an earlier one.
pub open spec fn cascade(ms: Seq<(Specificity, Rule)>, n: int) -> Map<
    Seq<char>,
    (Specificity, Value),
>
    decreases n,
{
    if n <= 0 {
        Map::empty()
    } else {
        let prev = cascade(ms, n - 1);
        let decls = ms[n - 1].1.declarations@;
        put_decls(prev, decls, ms[n - 1].0, decls.len() as int)
    }
}

/// The resolved properties of `elem`, each with the specificity of the rule that set it.
pub open spec fn spec_specified_values(elem: ElementData, stylesheet: StyleSheet) -> Map<
    Seq<char>,
    (Specificity, Value),
> {
    let ms = matched(elem, stylesheet.rules@, stylesheet.rules@.len() as int);
    cascade(ms, ms.len() as int)
}

proof fn lemma_table_prefix(e1: Seq<(String, Specificity, Value)>, e2: Seq<(String, Specificity, Value)>, n: int)
    requires
        0 <= n <= e1.len(),
        n <= e2.len(),
        forall|i: int| 0 <= i < n ==> e1[i] == e2[i],
    ensures
        table(e1, n) == table(e2, n),
    decreases n,
{
    if n > 0 {
        lemma_table_prefix(e1, e2, n - 1);
    }
}

proof fn lemma_table_absent(e: Seq<(String, Specificity, Value)>, n: int, k: Seq<char>)
    requires
        0 <= n <= e.len(),
        forall|i: int| 0 <= i < n ==> e[i].0@ != k,
    ensures
        !table(e, n).contains_key(k),
    decreases n,
{
    if n > 0 {
        lemma_table_absent(e, n - 1, k);
    }
}

proof fn lemma_table_lookup(e: Seq<(String, Specificity, Value)>, n: int, i: int)
    requires
        first_entry(e, e[i].0@, i),
        i < n <= e.len(),
    ensures
        table(e, n).contains_key(e[i].0@),
        table(e, n)[e[i].0@] == (e[i].1, e[i].2),
    decreases n,
{
    if i < n - 1 {
        lemma_table_lookup(e, n - 1, i);
    } else {
        lemma_table_absent(e, i, e[i].0@);
    }
}

proof fn lemma_table_update(
    e: Seq<(String, Specificity, Value)>,
    j: int,
    x: (String, Specificity, Value),
    n: int,
)
    requires
        first_entry(e, x.0@, j),
        0 <= n <= e.len(),
    ensures
        table(e.update(j, x), n) == (if j < n {
            table(e, n).insert(x.0@, (x.1, x.2))
        } else {
            table(e, n)
        }),
    decreases n,
{
    let e2 = e.update(j, x);
    if n > 0 {
        lemma_table_update(e, j, x, n - 1);
        if j == n - 1 {
            lemma_table_absent(e, j, x.0@);
            assert(table(e2, n) =~= table(e, n).insert(x.0@, (x.1, x.2)));
        } else if j < n - 1 {
            assert(table(e2, n) =~= table(e, n).insert(x.0@, (x.1, x.2)));
        }
    }
}

/// A map from property names to values, each with the specificity that set it.
pub struct PropertyMap {
    entries: Vec<(String, Specificity, Value)>,
}

impl View for PropertyMap {
    type V = Map<Seq<char>, (Specificity, Value)>;

    closed spec fn view(&self) -> Self::V {
        table(self.entries@, self.entries@.len() as int)
    }
}

impl PropertyMap {
    /// An empty map.
    pub fn new() -> (r: PropertyMap)
        ensures
            r@ == Map::<Seq<char>, (Specificity, Value)>::empty(),
    {
        PropertyMap { entries: Vec::new() }
    }

    fn find(&self, name: &str) -> (r: Option<usize>)
        ensures
            r matches Some(j) ==> first_entry(self.entries@, name@, j as int),
            r is None ==> forall|i: int|
                0 <= i < self.entries@.len() ==> self.entries@[i].0@ != name@,
    {
        let key = name.to_owned();
        let mut i: usize = 0;
        while i < self.entries.len()
            invariant
                key@ == name@,
                i <= self.entries@.len(),
                forall|k: int| 0 <= k < i ==> self.entries@[k].0@ != name@,
            decreases self.entries.len() - i,
        {
            if self.entries[i].0 == key {
                return Some(i);
            }
            i = i + 1;
        }
        None
    }

    /// The value stored under `name`, if any.
    pub fn get(&self, name: &str) -> (r: Option<Value>)
        ensures
            r matches Some(v) ==> self@.contains_key(name@) && self@[name@].1 == v,
            r is None ==> !self@.contains_key(name@),
    {
        match self.find(name) {
            Some(j) => {
                proof {
                    lemma_table_lookup(self.entries@, self.entries@.len() as int, j as int);
                }
                Some(self.entries[j].2.duplicate())
            },
            None => {
                proof {
                    lemma_table_absent(self.entries@, self.entries@.len() as int, name@);
                }
                None
            },
        }
    }

    /// Sets `name` to `value` at specificity `s`, unless `name` holds a value of higher
    /// specificity.
    pub fn put(&mut self, name: &String, s: Specificity, value: &Value)
        ensures
            final(self)@ == put(old(self)@, name@, s, *value),
    {
        let ghost e0 = self.entries@;
        match self.find(name.as_str()) {
            Some(j) => {
                proof {
                    lemma_table_lookup(e0, e0.len() as int, j as int);
                }
                if specificity_le(self.entries[j].1, s) {
                    let x = (name.clone(), s, value.duplicate());
                    proof {
                        lemma_table_update(e0, j as int, x, e0.len() as int);
                    }
                    self.entries.set(j, x);
                }
            },
            None => {
                proof {
                    lemma_table_absent(e0, e0.len() as int, name@);
                }
                self.entries.push((name.clone(), s, value.duplicate()));
                proof {
                    lemma_table_prefix(self.entries@, e0, e0.len() as int);
                }
            },
        }
    }
}

} // verus!

verus! {

fn specified_values(elem: &ElementData, stylesheet: &StyleSheet) -> (r: PropertyMap)
    ensures
        r@ == spec_specified_values(*elem, *stylesheet),
{
    let mut values = PropertyMap::new();
    let rules = matching_rules(elem, stylesheet);
    let ghost ms = matched(*elem, stylesheet.rules@, stylesheet.rules@.len() as int);
    let mut i: usize = 0;
    while i < rules.len()
        invariant
            rules@.len() == ms.len(),
            forall|k: int| 0 <= k < rules@.len() ==> (rules@[k].0, *rules@[k].1) == #[trigger] ms[k],
            i <= rules@.len(),
            values@ == cascade(ms, i as int),
        decreases rules.len() - i,
    {
        let (s, rule) = rules[i];
        assert((s, *rule) == ms[i as int]);
        let mut j: usize = 0;
        while j < rule.declarations.len()
            invariant
                j <= rule.declarations@.len(),
                    values@ == put_decls(cascade(ms, i as int), rule.declarations@, s, j as int),
            decreases rule.declarations.len() - j,
        {
            let d = &rule.declarations[j];
            values.put(&d.name, s, &d.value);
            j = j + 1;
        }
        i = i + 1;
    }
    values
}

/// How a node takes part in layout; `Hidden` (display: none) removes it and its subtree.
#[derive(Clone, Copy, Debug, PartialEq, Eq, Structural)]
pub enum Display {
    Inline,
    Block,
    Hidden,
}

/// `display` of a resolved value: `block` and `none` are recognised, anything else is inline.
pub open spec fn display_of(v: Option<(Specificity, Value)>) -> Display {
    match v {
        Some((_, Value::Keyword(s))) => if s@ == "block"@ {
            Display::Block
        } else if s@ == "none"@ {
            Display::Hidden
        } else {
            Display::Inline
        },
        _ => Display::Inline,
    }
}

/// A markup node with its resolved properties and its styled children.
pub struct StyledNode<'a> {
    pub node: &'a Node,
    pub specified_values: PropertyMap,
    pub children: Vec<StyledNode<'a>>,
}

impl<'a> StyledNode<'a> {
    /// The resolved properties.
    pub open spec fn props(&self) -> Map<Seq<char>, (Specificity, Value)> {
        self.specified_values@
    }

    /// The markup node that was styled.
    pub open spec fn markup(&self) -> Node {
        *self.node
    }

    pub open spec fn spec_value(&self, name: Seq<char>) -> Option<Value> {
        if self.props().contains_key(name) {
            Some(self.props()[name].1)
        } else {
            None
        }
    }

    pub open spec fn spec_display(&self) -> Display {
        display_of(self.props().get("display"@))
    }

    /// The markup node that was styled.
    pub fn node(&self) -> (r: &'a Node)
        ensures
            *r == self.markup(),
    {
        self.node
    }

    /// The resolved value of property `name`.
    pub fn value(&self, name: &str) -> (r: Option<Value>)
        ensures
            r == self.spec_value(name@),
    {
        self.specified_values.get(name)
    }

    /// How the node is laid out, from its `display` property.
    pub fn display(&self) -> (r: Display)
        ensures
            r == self.spec_display(),
    {
        proof { reveal_strlit("display"); }
        match self.value("display") {
            Some(Value::Keyword(s)) => {
                if s == "block".to_owned() {
                    Display::Block
                } else if s == "none".to_owned() {
                    Display::Hidden
                } else {
                    Display::Inline
                }
            },
            _ => Display::Inline,
        }
    }

    /// The value of `name`, else that of `fallback_name`, else `default`.
    pub fn lookup(&self, name: &str, fallback_name: &str, default: &Value) -> (r: Value)
        ensures
            r == (match self.spec_value(name@) {
                Some(v) => v,
                None => match self.spec_value(fallback_name@) {
                    Some(v) => v,
                    None => *default,
                },
            }),
    {
        match self.value(name) {
            Some(v) => v,
            None => match self.value(fallback_name) {
                Some(v) => v,
                None => default.duplicate(),
            },
        }
    }
}

/// The properties that the cascade gives a markup node: none for text.
pub open spec fn node_props(node: Node, stylesheet: StyleSheet) -> Map<
    Seq<char>,
    (Specificity, Value),
> {
    match node.node_type {
        NodeType::Element(e) => spec_specified_values(e, stylesheet),
        NodeType::Text(_) => Map::empty(),
    }
}

/// `s` is the styled tree of `node`: each node keeps its markup node, gets its resolved
/// properties, and has one styled child per child, in order.
pub open spec fn styles(s: StyledNode, node: Node, stylesheet: StyleSheet) -> bool
    decreases node,
{
    &&& s.markup() == node
    &&& s.props() == node_props(node, stylesheet)
    &&& s.children@.len() == node.children@.len()
    &&& forall|i: int|
        #![trigger node.children@[i]]
        0 <= i < node.children@.len() ==> styles(s.children@[i], node.children@[i], stylesheet)
}

proof fn lemma_styles_intro(s: StyledNode, node: Node, stylesheet: StyleSheet)
    requires
        s.markup() == node,
        s.props() == node_props(node, stylesheet),
        s.children@.len() == node.children@.len(),
        forall|i: int|
            #![trigger node.children@[i]]
            0 <= i < node.children@.len() ==> styles(s.children@[i], node.children@[i], stylesheet),
    ensures
        styles(s, node, stylesheet),
{
    reveal_with_fuel(styles, 2);
}

/// Builds the styled tree of `root`.
pub fn style_tree<'a>(root: &'a Node, stylesheet: &'a StyleSheet) -> (r: StyledNode<'a>)
    ensures
        styles(r, *root, *stylesheet),
    decreases root,
{
    let specified_values = match &root.node_type {
        NodeType::Element(elem) => specified_values(elem, stylesheet),
        NodeType::Text(_) => PropertyMap::new(),
    };
    let mut children: Vec<StyledNode<'a>> = Vec::new();
    let mut i: usize = 0;
    while i < root.children.len()
        invariant
            i <= root.children@.len(),
            specified_values@ == node_props(*root, *stylesheet),
            children@.len() == i,
            forall|k: int|
                #![trigger root.children@[k]]
                0 <= k < i ==> styles(children@[k], root.children@[k], *stylesheet),
        decreases root.children.len() - i,
    {
        let child = style_tree(&root.children[i], stylesheet);
        children.push(child);
        i = i + 1;
    }
    let r = StyledNode { node: root, specified_values, children };
    proof {
        assert(r.children@ == children@);
        lemma_styles_intro(r, *root, *stylesheet);
    }
    r
}

} // verus!

verus! {

/// `a` and `b` hold the same properties at every node.
pub open spec fn same_props<'x>(a: StyledNode<'x>, b: StyledNode<'x>) -> bool
    decreases a,
{
    &&& a.props() == b.props()
    &&& a.children@.len() == b.children@.len()
    &&& forall|i: int|
        #![trigger a.children@[i]]
        0 <= i < a.children@.len() ==> same_props(a.children@[i], b.children@[i])
}

/// Styling is a function of the markup and the style sheet: two styled trees of the same
/// node under the same style sheet hold the same properties at every node.
pub proof fn lemma_style_deterministic<'x>(
    a: StyledNode<'x>,
    b: StyledNode<'x>,
    node: Node,
    stylesheet: StyleSheet,
)
    requires
        styles(a, node, stylesheet),
        styles(b, node, stylesheet),
    ensures
        same_props(a, b),
    decreases a,
{
    assert forall|i: int| 0 <= i < a.children@.len() implies same_props(
        #[trigger] a.children@[i],
        b.children@[i],
    ) by {
        assert(node.children@[i] == node.children@[i]);
        assert(decreases_to!(a => a.children@[i]));
        lemma_style_deterministic(a.children@[i], b.children@[i], node.children@[i], stylesheet);
    }
    reveal_with_fuel(same_props, 2);
}

/// A rule takes the specificity of the first of its selectors that matches, in declared
/// order, whatever the specificities of later ones.
pub proof fn lemma_first_match_wins(elem: ElementData, rule: Rule, i: int)
    requires
        0 <= i < rule.selectors@.len(),
        spec_matches(elem, rule.selectors@[i]),
        forall|k: int| 0 <= k < i ==> !spec_matches(elem, #[trigger] rule.selectors@[k]),
    ensures
        spec_match_rule(elem, rule) == Some(rule.selectors@[i].spec_specificity()),
{
    lemma_first_match_none(elem, rule.selectors@, i);
    lemma_first_match_stays(elem, rule.selectors@, i + 1);
}

proof fn lemma_first_match_none(elem: ElementData, selectors: Seq<Selector>, n: int)
    requires
        0 <= n <= selectors.len(),
        forall|k: int| 0 <= k < n ==> !spec_matches(elem, #[trigger] selectors[k]),
    ensures
        first_match(elem, selectors, n) is None,
    decreases n,
{
    if n > 0 {
        lemma_first_match_none(elem, selectors, n - 1);
    }
}

/// Of two matching rules of equal specificity that set the same property, the later one's
/// value is the one resolved.
pub proof fn lemma_later_rule_wins(elem: ElementData, stylesheet: StyleSheet)
    requires
        stylesheet.rules@.len() == 2,
        spec_match_rule(elem, stylesheet.rules@[0]) is Some,
        spec_match_rule(elem, stylesheet.rules@[0]) == spec_match_rule(elem, stylesheet.rules@[1]),
        stylesheet.rules@[0].declarations@.len() == 1,
        stylesheet.rules@[1].declarations@.len() == 1,
        stylesheet.rules@[0].declarations@[0].name@ == stylesheet.rules@[1].declarations@[0].name@,
    ensures
        spec_specified_values(elem, stylesheet)[stylesheet.rules@[1].declarations@[0].name@].1
            == stylesheet.rules@[1].declarations@[0].value,
{
    reveal_with_fuel(matched, 3);
    reveal_with_fuel(cascade, 3);
    reveal_with_fuel(put_decls, 2);
    let rules = stylesheet.rules@;
    let ms = matched(elem, rules, 2);
    assert(matched(elem, rules, 0) == Seq::<(Specificity, Rule)>::empty());
    assert(ms.len() == 2);
    let c1 = cascade(ms, 1);
    assert(c1 == put_decls(Map::empty(), ms[0].1.declarations@, ms[0].0, 1));
    assert(c1.contains_key(rules[0].declarations@[0].name@));
    assert(c1[rules[0].declarations@[0].name@].0 == ms[1].0);
}

} // verus!
