//! The markup tree: elements with attributes, and text.
use vstd::prelude::*;

verus! {

broadcast use vstd::string::axiom_spec_iter;

/// Collects the characters of a string slice into a vector.
pub fn chars_of(s: &str) -> (r: Vec<char>)
    ensures
        r@ == s@,
{
    let mut out: Vec<char> = Vec::new();
    for c in iter: s.chars()
        invariant
            iter.seq() == s@,
            out@ == s@.subrange(0, iter.index() as int),
    {
        out.push(c);
    }
    proof {
        assert(out@ =~= s@);
    }
    out
}

} // verus!

verus! {

/// A node of the markup tree; it owns its children.
pub struct Node {
    pub children: Vec<Node>,
    pub node_type: NodeType,
}

/// An element or a run of text.
pub enum NodeType {
    Element(ElementData),
    Text(String),
}

/// An element: its tag name and its attributes, as (name, value) pairs.
pub struct ElementData {
    pub tag_name: String,
    pub attributes: Vec<(String, String)>,
}

/// Builds a text node.
pub fn text(data: String) -> (r: Node)
    ensures
        r.children@.len() == 0,
        r.node_type matches NodeType::Text(t) && t == data,
{
    Node { children: Vec::new(), node_type: NodeType::Text(data) }
}

/// Builds an element node.
pub fn elem(tag_name: String, attributes: Vec<(String, String)>, children: Vec<Node>) -> (r: Node)
    ensures
        r.children == children,
        r.node_type matches NodeType::Element(e) && e.tag_name == tag_name && e.attributes
            == attributes,
{
    Node { children, node_type: NodeType::Element(ElementData { tag_name, attributes }) }
}

/// `w` occurs in `c` at position `i` as a whole space-delimited field.
pub open spec fn field_at(c: Seq<char>, w: Seq<char>, i: int) -> bool {
    &&& 0 <= i
    &&& i + w.len() <= c.len()
    &&& c.subrange(i, i + w.len()) == w
    &&& (i == 0 || c[i - 1] == ' ')
    &&& (i + w.len() == c.len() || c[i + w.len()] == ' ')
}

/// `w` is one of the fields of `c` split at each space.
pub open spec fn is_field_of(c: Seq<char>, w: Seq<char>) -> bool {
    &&& forall|k: int| 0 <= k < w.len() ==> w[k] != ' '
    &&& exists|i: int| field_at(c, w, i)
}

impl ElementData {
    /// `i` is the first position of an attribute named `name`.
    pub open spec fn first_attr_index(&self, name: Seq<char>, i: int) -> bool {
        &&& 0 <= i < self.attributes@.len()
        &&& self.attributes@[i].0@ == name
        &&& forall|k: int| 0 <= k < i ==> self.attributes@[k].0@ != name
    }

    /// The value of the first attribute named `name`, if any.
    pub open spec fn attr(&self, name: Seq<char>) -> Option<Seq<char>> {
        if exists|i: int| self.first_attr_index(name, i) {
            Some(self.attributes@[choose|i: int| self.first_attr_index(name, i)].1@)
        } else {
            None
        }
    }

    /// The element's classes hold `class`.
    pub open spec fn has_class_spec(&self, class: Seq<char>) -> bool {
        match self.attr("class"@) {
            Some(c) => is_field_of(c, class),
            None => false,
        }
    }

    /// Looks an attribute up by name.
    pub fn attr_value(&self, name: &str) -> (r: Option<&String>)
        ensures
            r matches Some(v) ==> self.attr(name@) == Some(v@),
            r is None ==> self.attr(name@) is None,
    {
        let key = name.to_owned();
        let mut i: usize = 0;
        while i < self.attributes.len()
            invariant
                key@ == name@,
                i <= self.attributes@.len(),
                forall|k: int| 0 <= k < i ==> self.attributes@[k].0@ != name@,
            decreases self.attributes.len() - i,
        {
            if self.attributes[i].0 == key {
                proof {
                    assert(self.first_attr_index(name@, i as int));
                    let j = choose|j: int| self.first_attr_index(name@, j);
                    assert(j == i);
                }
                return Some(&self.attributes[i].1);
            }
            i = i + 1;
        }
        None
    }

    /// The value of the `id` attribute.
    pub fn id(&self) -> (r: Option<&String>)
        ensures
            r matches Some(v) ==> self.attr("id"@) == Some(v@),
            r is None ==> self.attr("id"@) is None,
    {
        proof { reveal_strlit("id"); }
        self.attr_value("id")
    }

    /// Whether `class` is one of the space-separated names of the `class` attribute.
    pub fn has_class(&self, class: &String) -> (r: bool)
        ensures
            r == self.has_class_spec(class@),
    {
        proof { reveal_strlit("class"); }
        match self.attr_value("class") {
            Some(list) => has_field(&chars_of(list.as_str()), &chars_of(class.as_str())),
            None => false,
        }
    }
}

/// Whether `w` is one of the fields of `c` split at each space.
pub fn has_field(c: &Vec<char>, w: &Vec<char>) -> (r: bool)
    ensures
        r == is_field_of(c@, w@),
{
    let mut k: usize = 0;
    while k < w.len()
        invariant
            k <= w@.len(),
            forall|j: int| 0 <= j < k ==> w@[j] != ' ',
        decreases w.len() - k,
    {
        if w[k] == ' ' {
            return false;
        }
        k = k + 1;
    }
    if w.len() > c.len() {
        assert(!exists|i: int| field_at(c@, w@, i));
        return false;
    }
    let last: usize = c.len() - w.len();
    let mut i: usize = 0;
    while i <= last
        invariant
            w@.len() <= c@.len() <= usize::MAX,
            last == c@.len() - w@.len(),
            forall|j: int| 0 <= j < w@.len() ==> w@[j] != ' ',
            forall|j: int| 0 <= j < i ==> !field_at(c@, w@, j),
        decreases last + 1 - i,
    {
        let left_ok = i == 0 || c[i - 1] == ' ';
        let right_ok = i == last || c[i + w.len()] == ' ';
        if left_ok && right_ok {
            let mut same = true;
            let mut j: usize = 0;
            while j < w.len()
                invariant
                    i <= last,
                    w@.len() <= c@.len() <= usize::MAX,
                    last == c@.len() - w@.len(),
                    j <= w@.len(),
                    same == forall|m: int| 0 <= m < j ==> c@[i + m] == w@[m],
                decreases w.len() - j,
            {
                if c[i + j] != w[j] {
                    same = false;
                }
                j = j + 1;
            }
            if same {
                assert(c@.subrange(i as int, i + w@.len()) =~= w@);
                assert(field_at(c@, w@, i as int));
                return true;
            }
            assert(!(c@.subrange(i as int, i + w@.len()) =~= w@)) by {
                let m = choose|m: int| 0 <= m < w@.len() && c@[i + m] != w@[m];
                assert(c@.subrange(i as int, i + w@.len())[m] != w@[m]);
            }
        }
        if i == last {
            assert forall|j: int| !field_at(c@, w@, j) by {
                if j > last {
                    assert(j + w@.len() > c@.len());
                }
            }
            return false;
        }
        i = i + 1;
    }
    false
}

} // verus!
