//! Style sheets: rules, selectors, declarations and values.
use vstd::prelude::*;

verus! {

/// An ordered list of rules; later rules break ties among equal specificities.
pub struct StyleSheet {
    pub rules: Vec<Rule>,
}

/// Alternative selectors and the declarations that apply when any of them matches.
pub struct Rule {
    pub selectors: Vec<Selector>,
    pub declarations: Vec<Declaration>,
}

/// A selector; only simple selectors exist.
pub enum Selector {
    Simple(SimpleSelector),
}

/// Filters on tag name, id and classes; an absent filter passes every element.
pub struct SimpleSelector {
    pub tag_name: Option<String>,
    pub id: Option<String>,
    pub class: Vec<String>,
}

/// A property name and its value.
pub struct Declaration {
    pub name: String,
    pub value: Value,
}

/// A property value. Lengths are whole numbers of the unit.
pub enum Value {
    Keyword(String),
    Length(i64, Unit),
    ColorValue(Color),
}

/// A unit of length.
#[derive(Clone, Copy, Debug, PartialEq, Eq, Structural)]
pub enum Unit {
    Px,
}

/// A color, each channel 0 to 255.
#[derive(Clone, Copy, Debug, PartialEq, Eq, Structural)]
pub struct Color {
    pub r: u8,
    pub g: u8,
    pub b: u8,
    pub a: u8,
}

/// Counts of ids, classes and tag names, compared lexicographically.
pub type Specificity = (usize, usize, usize);

/// `a` has no higher priority than `b`.
pub open spec fn spec_le(a: Specificity, b: Specificity) -> bool {
    a.0 < b.0 || (a.0 == b.0 && (a.1 < b.1 || (a.1 == b.1 && a.2 <= b.2)))
}

/// `a` has strictly lower priority than `b`.
pub open spec fn spec_lt(a: Specificity, b: Specificity) -> bool {
    spec_le(a, b) && a != b
}

/// Compares two specificities.
pub fn specificity_le(a: Specificity, b: Specificity) -> (r: bool)
    ensures
        r == spec_le(a, b),
{
    a.0 < b.0 || (a.0 == b.0 && (a.1 < b.1 || (a.1 == b.1 && a.2 <= b.2)))
}

/// The order of specificities is total: of two, exactly one is lower, higher or equal.
pub proof fn lemma_specificity_total(a: Specificity, b: Specificity)
    ensures
        spec_lt(a, b) || spec_lt(b, a) || a == b,
        !(spec_lt(a, b) && spec_lt(b, a)),
        !(spec_lt(a, b) && a == b),
        !(spec_lt(b, a) && a == b),
        spec_le(a, b) || spec_le(b, a),
        spec_le(a, b) && spec_le(b, a) ==> a == b,
{
}

/// The order of specificities is transitive.
pub proof fn lemma_specificity_transitive(a: Specificity, b: Specificity, c: Specificity)
    requires
        spec_le(a, b),
        spec_le(b, c),
    ensures
        spec_le(a, c),
{
}

impl Selector {
    pub open spec fn spec_specificity(&self) -> Specificity {
        match self {
            Selector::Simple(s) => (
                if s.id is Some { 1usize } else { 0usize },
                s.class@.len() as usize,
                if s.tag_name is Some { 1usize } else { 0usize },
            ),
        }
    }

    /// The selector's specificity: (ids, classes, tag names).
    pub fn specificity(&self) -> (r: Specificity)
        ensures
            r == self.spec_specificity(),
    {
        match self {
            Selector::Simple(s) => {
                let a: usize = if s.id.is_some() { 1 } else { 0 };
                let c: usize = if s.tag_name.is_some() { 1 } else { 0 };
                (a, s.class.len(), c)
            },
        }
    }
}

impl Value {
    /// A copy of the value, equal to it.
    pub fn duplicate(&self) -> (r: Value)
        ensures
            r == *self,
    {
        match self {
            Value::Keyword(s) => Value::Keyword(s.clone()),
            Value::Length(n, u) => Value::Length(*n, *u),
            Value::ColorValue(c) => Value::ColorValue(*c),
        }
    }

    pub open spec fn spec_to_px(&self) -> int {
        match self {
            Value::Length(n, Unit::Px) => *n as int,
            _ => 0,
        }
    }

    /// The length in pixels; any other value counts as zero.
    pub fn to_px(&self) -> (r: i64)
        ensures
            r == self.spec_to_px(),
    {
        match self {
            Value::Length(n, Unit::Px) => *n,
            _ => 0,
        }
    }
}

} // verus!
