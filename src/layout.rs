//! Box tree construction and block layout.
use vstd::prelude::*;
use crate::css::{Unit, Value};
use crate::style::{Display, StyledNode};

verus! {

/// A rectangle: its origin and size, in whole pixels.
#[derive(Clone, Copy, Debug, PartialEq, Eq, Structural)]
pub struct Rect {
    pub x: i64,
    pub y: i64,
    pub width: i64,
    pub height: i64,
}

/// The sizes of the four edges of a box.
#[derive(Clone, Copy, Debug, PartialEq, Eq, Structural)]
pub struct EdgeSizes {
    pub left: i64,
    pub right: i64,
    pub top: i64,
    pub bottom: i64,
}

/// A content rectangle and the padding, border and margin around it.
#[derive(Clone, Copy, Debug, PartialEq, Eq, Structural)]
pub struct Dimensions {
    pub content: Rect,
    pub padding: EdgeSizes,
    pub border: EdgeSizes,
    pub margin: EdgeSizes,
}

pub open spec fn zero_edges() -> EdgeSizes {
    EdgeSizes { left: 0, right: 0, top: 0, bottom: 0 }
}

pub open spec fn zero_dimensions() -> Dimensions {
    Dimensions {
        content: Rect { x: 0, y: 0, width: 0, height: 0 },
        padding: zero_edges(),
        border: zero_edges(),
        margin: zero_edges(),
    }
}

/// All-zero dimensions.
pub fn empty_dimensions() -> (r: Dimensions)
    ensures
        r == zero_dimensions(),
{
    let e = EdgeSizes { left: 0, right: 0, top: 0, bottom: 0 };
    Dimensions { content: Rect { x: 0, y: 0, width: 0, height: 0 }, padding: e, border: e, margin: e }
}

/// The kind of a box, with the styled node it comes from where there is one.
pub enum BoxType<'a> {
    BlockNode(&'a StyledNode<'a>),
    InlineNode(&'a StyledNode<'a>),
    AnonymousBlock,
}

/// A box of the layout tree; it owns its children.
pub struct LayoutBox<'a> {
    pub dimensions: Dimensions,
    pub box_type: BoxType<'a>,
    pub children: Vec<LayoutBox<'a>>,
}

/// Where one child box of a block comes from: one styled child, or a run of inline styled
/// children gathered into an anonymous block.
pub enum Slot {
    One(int),
    Anon(Seq<int>),
}

/// The slots of a box whose styled children are `cs[..n]`. Hidden children get none; when
/// `wrap` holds, each run of consecutive inline children shares one anonymous block.
pub open spec fn slots(cs: Seq<StyledNode>, n: int, wrap: bool) -> Seq<Slot>
    decreases n,
{
    if n <= 0 {
        Seq::empty()
    } else {
        let prev = slots(cs, n - 1, wrap);
        let d = cs[n - 1].spec_display();
        if d == Display::Hidden {
            prev
        } else if d == Display::Block || !wrap {
            prev.push(Slot::One(n - 1))
        } else if prev.len() > 0 && prev.last() is Anon {
            prev.drop_last().push(Slot::Anon(prev.last()->Anon_0.push(n - 1)))
        } else {
            prev.push(Slot::Anon(seq![n - 1]))
        }
    }
}

/// Some styled child is displayed as a block.
pub open spec fn has_block_child(sn: StyledNode) -> bool {
    exists|i: int| 0 <= i < sn.children@.len() && (#[trigger] sn.children@[i]).spec_display() == Display::Block
}

/// The slots of the box built from `sn`: inline children are wrapped only in a block that
/// has a block child.
pub open spec fn node_slots(sn: StyledNode) -> Seq<Slot> {
    slots(
        sn.children@,
        sn.children@.len() as int,
        sn.spec_display() == Display::Block && has_block_child(sn),
    )
}

/// `b` is the box tree of `sn`: its kind follows the display of `sn`, and its children
/// follow `node_slots(sn)`, each built in turn from its styled child.
pub open spec fn builds(b: LayoutBox, sn: StyledNode) -> bool
    decreases b, 2int,
{
    &&& b.dimensions == zero_dimensions()
    &&& match b.box_type {
        BoxType::BlockNode(r) => sn.spec_display() == Display::Block && *r == sn,
        BoxType::InlineNode(r) => sn.spec_display() == Display::Inline && *r == sn,
        BoxType::AnonymousBlock => false,
    }
    &&& slots_built(b.children@, node_slots(sn), sn)
}

/// The boxes `out` stand, one each, for the slots `sl` of the styled children of `sn`.
pub open spec fn slots_built(out: Seq<LayoutBox>, sl: Seq<Slot>, sn: StyledNode) -> bool
    decreases out, 1int,
{
    &&& out.len() == sl.len()
    &&& forall|j: int| #![trigger sl[j]] 0 <= j < sl.len() ==> slot_ok(out[j], sl[j], sn)
}

/// `x` is the box of slot `s`: the box built from one styled child of `sn`, or an anonymous
/// block of the boxes built from a run of them.
pub open spec fn slot_ok(x: LayoutBox, s: Slot, sn: StyledNode) -> bool
    decreases x, 3int,
{
    &&& (x.box_type is AnonymousBlock <==> s is Anon)
    &&& match s {
        Slot::One(i) => 0 <= i < sn.children@.len() && builds(x, sn.children@[i]),
        Slot::Anon(run) => {
            &&& x.dimensions == zero_dimensions()
            &&& x.children@.len() == run.len()
            &&& forall|k: int|
                #![trigger run[k]]
                0 <= k < run.len() ==> 0 <= run[k] < sn.children@.len() && builds(
                    x.children@[k],
                    sn.children@[run[k]],
                )
        },
    }
}

} // verus!

verus! {

proof fn lemma_builds_intro(b: LayoutBox, sn: StyledNode)
    requires
        b.dimensions == zero_dimensions(),
        match b.box_type {
            BoxType::BlockNode(r) => sn.spec_display() == Display::Block && *r == sn,
            BoxType::InlineNode(r) => sn.spec_display() == Display::Inline && *r == sn,
            BoxType::AnonymousBlock => false,
        },
        slots_built(b.children@, node_slots(sn), sn),
    ensures
        builds(b, sn),
{
    reveal_with_fuel(builds, 2);
}

proof fn lemma_builds_kind(b: LayoutBox, sn: StyledNode)
    requires
        builds(b, sn),
    ensures
        !(b.box_type is AnonymousBlock),
        b.dimensions == zero_dimensions(),
{
    reveal_with_fuel(builds, 2);
}

proof fn lemma_anon_ok(x: LayoutBox, run: Seq<int>, sn: StyledNode)
    requires
        x.box_type is AnonymousBlock,
        x.dimensions == zero_dimensions(),
        x.children@.len() == run.len(),
        forall|k: int|
            #![trigger run[k]]
            0 <= k < run.len() ==> 0 <= run[k] < sn.children@.len() && builds(
                x.children@[k],
                sn.children@[run[k]],
            ),
    ensures
        slot_ok(x, Slot::Anon(run), sn),
{
    reveal_with_fuel(slot_ok, 2);
}

proof fn lemma_slots_push(out: Seq<LayoutBox>, sl: Seq<Slot>, sn: StyledNode, x: LayoutBox, s: Slot)
    requires
        slots_built(out, sl, sn),
        slot_ok(x, s, sn),
    ensures
        slots_built(out.push(x), sl.push(s), sn),
{
    let out2 = out.push(x);
    let sl2 = sl.push(s);
    assert forall|j: int| 0 <= j < sl2.len() implies slot_ok(out2[j], #[trigger] sl2[j], sn) by {
        if j < sl.len() {
            assert(out2[j] == out[j]);
            assert(sl2[j] == sl[j]);
        }
    }
}

proof fn lemma_slots_extend_anon(
    out: Seq<LayoutBox>,
    sl: Seq<Slot>,
    sn: StyledNode,
    a: LayoutBox,
    b: LayoutBox,
    i: int,
)
    requires
        slots_built(out, sl, sn),
        sl.len() > 0,
        sl.last() is Anon,
        0 <= i < sn.children@.len(),
        a.dimensions == out.last().dimensions,
        a.box_type is AnonymousBlock,
        a.children@ == out.last().children@.push(b),
        builds(b, sn.children@[i]),
    ensures
        slots_built(
            out.drop_last().push(a),
            sl.drop_last().push(Slot::Anon(sl.last()->Anon_0.push(i))),
            sn,
        ),
{
    let n = sl.len() - 1;
    let run = sl.last()->Anon_0;
    let run2 = run.push(i);
    assert(out[n] == out.last());
    assert(sl[n] == Slot::Anon(run));
    assert(slot_ok(out[n], sl[n], sn));
    assert(out[n].dimensions == zero_dimensions());
    assert(out[n].children@.len() == run.len());
    assert forall|k: int| 0 <= k < run2.len() implies 0 <= #[trigger] run2[k] < sn.children@.len() && builds(
        a.children@[k],
        sn.children@[run2[k]],
    ) by {
        if k < run.len() {
            assert(a.children@[k] == out[n].children@[k]);
            assert(run2[k] == run[k]);
        } else {
            assert(a.children@[k] == b);
        }
    }
    lemma_anon_ok(a, run2, sn);
    let out1 = out.drop_last();
    let sl1 = sl.drop_last();
    assert forall|j: int| 0 <= j < sl1.len() implies slot_ok(out1[j], #[trigger] sl1[j], sn) by {
        assert(out1[j] == out[j]);
        assert(sl1[j] == sl[j]);
    }
    lemma_slots_push(out1, sl1, sn, a, Slot::Anon(run2));
}

/// Builds the box tree of a styled node that is displayed.
pub fn build_layout_tree<'a>(style_node: &'a StyledNode<'a>) -> (r: LayoutBox<'a>)
    requires
        style_node.spec_display() != Display::Hidden,
    ensures
        builds(r, *style_node),
    decreases style_node,
{
    let ghost sn = *style_node;
    let ghost cs = style_node.children@;
    let display = style_node.display();
    let box_type = if display == Display::Block {
        BoxType::BlockNode(style_node)
    } else {
        BoxType::InlineNode(style_node)
    };
    let mut has_block = false;
    let mut i: usize = 0;
    while i < style_node.children.len()
        invariant
            cs == style_node.children@,
            i <= cs.len(),
            has_block == exists|k: int| 0 <= k < i && (#[trigger] cs[k]).spec_display() == Display::Block,
        decreases style_node.children.len() - i,
    {
        if style_node.children[i].display() == Display::Block {
            has_block = true;
        }
        i = i + 1;
    }
    let wrap = display == Display::Block && has_block;
    let mut children: Vec<LayoutBox<'a>> = Vec::new();
    i = 0;
    while i < style_node.children.len()
        invariant
            sn == *style_node,
            cs == style_node.children@,
            i <= cs.len(),
            slots_built(children@, slots(cs, i as int, wrap), sn),
        decreases style_node.children.len() - i,
    {
        let ghost prev = slots(cs, i as int, wrap);
        let ghost old_children = children@;
        let child = &style_node.children[i];
        let d = child.display();
        if d == Display::Hidden {
        } else if d == Display::Block || !wrap {
            let b = build_layout_tree(child);
            proof {
                lemma_builds_kind(b, cs[i as int]);
                assert(slot_ok(b, Slot::One(i as int), sn));
                lemma_slots_push(children@, prev, sn, b, Slot::One(i as int));
            }
            children.push(b);
            proof {
                assert(slots(cs, i + 1, wrap) == prev.push(Slot::One(i as int)));
            }
        } else {
            let b = build_layout_tree(child);
            let n = children.len();
            let last_anon = n > 0 && match children[n - 1].box_type {
                BoxType::AnonymousBlock => true,
                _ => false,
            };
            if last_anon {
                let ghost run = prev.last()->Anon_0;
                match children.pop() {
                    Some(mut a) => {
                        assert(a == old_children[n - 1]);
                        a.children.push(b);
                        children.push(a);
                        proof {
                            let sl2 = slots(cs, i + 1, wrap);
                            assert(sl2 == prev.drop_last().push(Slot::Anon(run.push(i as int))));
                            assert(children@ == old_children.drop_last().push(a));
                            lemma_slots_extend_anon(old_children, prev, sn, a, b, i as int);
                        }
                    },
                    None => {},
                }
            } else {
                let mut kids: Vec<LayoutBox<'a>> = Vec::new();
                kids.push(b);
                let a = LayoutBox { dimensions: empty_dimensions(), box_type: BoxType::AnonymousBlock, children: kids };
                children.push(a);
                proof {
                    assert(a.children@[0] == b);
                    lemma_anon_ok(a, seq![i as int], sn);
                    lemma_slots_push(old_children, prev, sn, a, Slot::Anon(seq![i as int]));
                    assert(children@ == old_children.push(a));
                    assert(slots(cs, i + 1, wrap) == prev.push(Slot::Anon(seq![i as int])));
                }
            }
        }
        i = i + 1;
    }
    let r = LayoutBox { dimensions: empty_dimensions(), box_type, children };
    proof {
        assert(wrap == (sn.spec_display() == Display::Block && has_block_child(sn)));
        assert(r.children@ == children@);
        lemma_builds_intro(r, sn);
    }
    r
}

} // verus!

verus! {

/// A child whose display is `none` gets no box, so nothing of its subtree appears in the box
/// tree: every slot, and every member of an anonymous run, is a displayed child, and each
/// run is non-empty and holds inline children only.
pub proof fn lemma_hidden_omitted(cs: Seq<StyledNode>, n: int, wrap: bool)
    requires
        0 <= n <= cs.len(),
    ensures
        forall|j: int|
            #![trigger slots(cs, n, wrap)[j]]
            0 <= j < slots(cs, n, wrap).len() ==> match slots(cs, n, wrap)[j] {
                Slot::One(i) => 0 <= i < n && cs[i].spec_display() != Display::Hidden,
                Slot::Anon(run) => run.len() > 0 && forall|k: int|
                    #![trigger run[k]]
                    0 <= k < run.len() ==> 0 <= run[k] < n && cs[run[k]].spec_display()
                        == Display::Inline,
            },
    decreases n,
{
    if n > 0 {
        lemma_hidden_omitted(cs, n - 1, wrap);
        let prev = slots(cs, n - 1, wrap);
        let cur = slots(cs, n, wrap);
        let d = cs[n - 1].spec_display();
        if d != Display::Hidden && d != Display::Block && wrap && prev.len() > 0 && prev.last() is Anon {
            let run = prev.last()->Anon_0;
            assert(prev[prev.len() - 1] == prev.last());
            assert forall|j: int| 0 <= j < cur.len() implies match #[trigger] cur[j] {
                Slot::One(i) => 0 <= i < n && cs[i].spec_display() != Display::Hidden,
                Slot::Anon(r) => r.len() > 0 && forall|k: int|
                    #![trigger r[k]]
                    0 <= k < r.len() ==> 0 <= r[k] < n && cs[r[k]].spec_display() == Display::Inline,
            } by {
                if j < cur.len() - 1 {
                    assert(cur[j] == prev[j]);
                } else {
                    let r = run.push(n - 1);
                    assert(cur[j] == Slot::Anon(r));
                    assert forall|k: int| 0 <= k < r.len() implies 0 <= #[trigger] r[k] < n
                        && cs[r[k]].spec_display() == Display::Inline by {
                        if k < run.len() {
                            assert(r[k] == run[k]);
                        }
                    }
                }
            }
        } else {
            assert forall|j: int| 0 <= j < cur.len() implies match #[trigger] cur[j] {
                Slot::One(i) => 0 <= i < n && cs[i].spec_display() != Display::Hidden,
                Slot::Anon(r) => r.len() > 0 && forall|k: int|
                    #![trigger r[k]]
                    0 <= k < r.len() ==> 0 <= r[k] < n && cs[r[k]].spec_display() == Display::Inline,
            } by {
                if j < prev.len() {
                    assert(cur[j] == prev[j]);
                }
            }
        }
    }
}

} // verus!

verus! {

/// `x` held to the range of `i64`.
pub open spec fn clamp(x: int) -> i64 {
    if x > i64::MAX {
        i64::MAX
    } else if x < i64::MIN {
        i64::MIN
    } else {
        x as i64
    }
}

fn clamp_wide(x: i128) -> (r: i64)
    ensures
        r == clamp(x as int),
{
    if x > i64::MAX as i128 {
        i64::MAX
    } else if x < i64::MIN as i128 {
        i64::MIN
    } else {
        x as i64
    }
}

/// `floor(x / 2)`.
fn half_floor(x: i128) -> (r: i128)
    requires
        x > i128::MIN,
    ensures
        r == x as int / 2,
{
    if x >= 0 {
        x / 2
    } else {
        let r = -((-(x + 1)) / 2 + 1);
        assert(r == x as int / 2) by (nonlinear_arith)
            requires
                x < 0,
                r == -((-(x as int + 1)) / 2 + 1),
        ;
        r
    }
}

pub open spec fn is_auto(v: Value) -> bool {
    v matches Value::Keyword(s) && s@ == "auto"@
}

fn is_auto_value(v: &Value) -> (r: bool)
    ensures
        r == is_auto(*v),
{
    match v {
        Value::Keyword(s) => *s == "auto".to_owned(),
        _ => false,
    }
}

/// The value of `name`, else of `fallback`, else a zero length.
pub open spec fn prop_or(sn: StyledNode, name: Seq<char>, fallback: Seq<char>) -> Value {
    match sn.spec_value(name) {
        Some(v) => v,
        None => match sn.spec_value(fallback) {
            Some(v) => v,
            None => Value::Length(0, Unit::Px),
        },
    }
}

pub open spec fn px_of(sn: StyledNode, name: Seq<char>, fallback: Seq<char>) -> int {
    prop_or(sn, name, fallback).spec_to_px()
}

/// Left margin, width and right margin of a block, before they are held to `i64`: they
/// and the borders and paddings add up to the containing width `cbw` where an `auto`
/// allows it. An `auto` width takes the free space; else an `auto` margin does, both
/// halves where both are `auto`; else the right margin does. Where a fixed width overflows,
/// `auto` margins count as zero.
pub open spec fn block_widths(sn: StyledNode, cbw: int) -> (int, int, int) {
    let wa = match sn.spec_value("width"@) {
        Some(v) => is_auto(v),
        None => true,
    };
    let wpx = match sn.spec_value("width"@) {
        Some(v) => v.spec_to_px(),
        None => 0,
    };
    let ml = prop_or(sn, "margin-left"@, "margin"@);
    let mr = prop_or(sn, "margin-right"@, "margin"@);
    let total = ml.spec_to_px() + mr.spec_to_px() + px_of(sn, "border-left-width"@, "border-width"@)
        + px_of(sn, "border-right-width"@, "border-width"@) + px_of(sn, "padding-left"@, "padding"@)
        + px_of(sn, "padding-right"@, "padding"@) + wpx;
    let overflow = !wa && total > cbw;
    let mla = is_auto(ml) && !overflow;
    let mra = is_auto(mr) && !overflow;
    let under = cbw - total;
    if wa {
        if under >= 0 {
            (ml.spec_to_px(), under, mr.spec_to_px())
        } else {
            (ml.spec_to_px(), 0, mr.spec_to_px() + under)
        }
    } else if mla && mra {
        (under / 2, wpx, under - under / 2)
    } else if mla {
        (under, wpx, mr.spec_to_px())
    } else if mra {
        (ml.spec_to_px(), wpx, under)
    } else {
        (ml.spec_to_px(), wpx, mr.spec_to_px() + under)
    }
}

} // verus!

verus! {

pub open spec fn edges(left: int, right: int, top: int, bottom: int) -> EdgeSizes {
    EdgeSizes { left: left as i64, right: right as i64, top: top as i64, bottom: bottom as i64 }
}

/// The dimensions of a block box laid out in `cb`, with a content height of zero: widths
/// from `block_widths`, edges from the styled properties, and a position at the flow
/// cursor `cb.content.height`, below the containing block's top.
pub open spec fn block_dims(sn: StyledNode, cb: Dimensions) -> Dimensions {
    let (ml, w, mr) = block_widths(sn, cb.content.width as int);
    let margin = EdgeSizes {
        left: clamp(ml),
        right: clamp(mr),
        top: px_of(sn, "margin-top"@, "margin"@) as i64,
        bottom: px_of(sn, "margin-bottom"@, "margin"@) as i64,
    };
    let border = edges(
        px_of(sn, "border-left-width"@, "border-width"@),
        px_of(sn, "border-right-width"@, "border-width"@),
        px_of(sn, "border-top-width"@, "border-width"@),
        px_of(sn, "border-bottom-width"@, "border-width"@),
    );
    let padding = edges(
        px_of(sn, "padding-left"@, "padding"@),
        px_of(sn, "padding-right"@, "padding"@),
        px_of(sn, "padding-top"@, "padding"@),
        px_of(sn, "padding-bottom"@, "padding"@),
    );
    Dimensions {
        content: Rect {
            x: clamp(cb.content.x + margin.left + border.left + padding.left),
            y: clamp(
                cb.content.y + cb.content.height + margin.top + border.top + padding.top,
            ),
            width: clamp(w),
            height: 0,
        },
        padding,
        border,
        margin,
    }
}

/// The dimensions of an inline or anonymous box laid out in `cb`: no edges, the full
/// containing width, at the flow cursor.
pub open spec fn flow_dims(cb: Dimensions) -> Dimensions {
    Dimensions {
        content: Rect {
            x: cb.content.x,
            y: clamp(cb.content.y + cb.content.height),
            width: cb.content.width,
            height: 0,
        },
        padding: zero_edges(),
        border: zero_edges(),
        margin: zero_edges(),
    }
}

pub open spec fn own_dims<'x>(b: LayoutBox<'x>, cb: Dimensions) -> Dimensions {
    match b.box_type {
        BoxType::BlockNode(sn) => block_dims(*sn, cb),
        _ => flow_dims(cb),
    }
}

pub open spec fn with_height(d: Dimensions, h: i64) -> Dimensions {
    Dimensions { content: Rect { height: h, ..d.content }, ..d }
}

/// The height of the margin box of `d`.
pub open spec fn margin_box_height(d: Dimensions) -> i64 {
    clamp(
        d.content.height + d.padding.top + d.padding.bottom + d.border.top + d.border.bottom
            + d.margin.top + d.margin.bottom,
    )
}

/// The flow cursor after the first `n` boxes of `kids`: the sum of their margin-box heights.
pub open spec fn stack<'x>(kids: Seq<LayoutBox<'x>>, n: int) -> i64
    decreases n,
{
    if n <= 0 {
        0
    } else {
        clamp(stack(kids, n - 1) + margin_box_height(kids[n - 1].dimensions))
    }
}

/// A block's explicit `height` where it has a length in pixels, else `stacked`.
pub open spec fn final_height<'x>(b: LayoutBox<'x>, stacked: i64) -> i64 {
    match b.box_type {
        BoxType::BlockNode(sn) => match sn.spec_value("height"@) {
            Some(Value::Length(h, Unit::Px)) => h,
            _ => stacked,
        },
        _ => stacked,
    }
}

/// `a` is `b` laid out in `cb`: each child is laid out in this box's content rectangle with
/// the cursor after its earlier siblings, and the height is explicit or that of the children.
pub open spec fn lays_out<'x>(b: LayoutBox<'x>, a: LayoutBox<'x>, cb: Dimensions) -> bool
    decreases b,
{
    let d0 = own_dims(b, cb);
    &&& a.box_type == b.box_type
    &&& a.children@.len() == b.children@.len()
    &&& forall|j: int|
        #![trigger b.children@[j]]
        0 <= j < b.children@.len() ==> lays_out(
            b.children@[j],
            a.children@[j],
            with_height(d0, stack(a.children@, j)),
        )
    &&& a.dimensions == with_height(d0, final_height(b, stack(a.children@, a.children@.len() as int)))
}

fn px(sn: &StyledNode, name: &str, fallback: &str) -> (r: i64)
    ensures
        r == px_of(*sn, name@, fallback@),
{
    let zero = Value::Length(0, Unit::Px);
    sn.lookup(name, fallback, &zero).to_px()
}

/// Left margin, width and right margin of a block in a containing block `cbw` wide.
fn calculate_block_width(sn: &StyledNode, cbw: i64) -> (r: (i64, i64, i64))
    ensures
        r == ({
            let (ml, w, mr) = block_widths(*sn, cbw as int);
            (clamp(ml), clamp(w), clamp(mr))
        }),
{
    proof {
        reveal_strlit("width");
        reveal_strlit("auto");
    }
    let zero = Value::Length(0, Unit::Px);
    let (wa, wpx) = match sn.value("width") {
        Some(v) => (is_auto_value(&v), v.to_px()),
        None => (true, 0i64),
    };
    let ml = sn.lookup("margin-left", "margin", &zero);
    let mr = sn.lookup("margin-right", "margin", &zero);
    let total: i128 = ml.to_px() as i128 + mr.to_px() as i128 + px(sn, "border-left-width", "border-width") as i128
        + px(sn, "border-right-width", "border-width") as i128 + px(sn, "padding-left", "padding") as i128
        + px(sn, "padding-right", "padding") as i128 + wpx as i128;
    let overflow = !wa && total > cbw as i128;
    let mla = is_auto_value(&ml) && !overflow;
    let mra = is_auto_value(&mr) && !overflow;
    let under: i128 = cbw as i128 - total;
    let (l, w, r): (i128, i128, i128) = if wa {
        if under >= 0 {
            (ml.to_px() as i128, under, mr.to_px() as i128)
        } else {
            (ml.to_px() as i128, 0, mr.to_px() as i128 + under)
        }
    } else if mla && mra {
        let h = half_floor(under);
        (h, wpx as i128, under - h)
    } else if mla {
        (under, wpx as i128, mr.to_px() as i128)
    } else if mra {
        (ml.to_px() as i128, wpx as i128, under)
    } else {
        (ml.to_px() as i128, wpx as i128, mr.to_px() as i128 + under)
    };
    (clamp_wide(l), clamp_wide(w), clamp_wide(r))
}

} // verus!

verus! {

/// The dimensions of a block laid out in `cb`, before its height is known.
fn calculate_block_dims(sn: &StyledNode, cb: Dimensions) -> (r: Dimensions)
    ensures
        r == block_dims(*sn, cb),
{
    let (ml, w, mr) = calculate_block_width(sn, cb.content.width);
    let margin = EdgeSizes {
        left: ml,
        right: mr,
        top: px(sn, "margin-top", "margin"),
        bottom: px(sn, "margin-bottom", "margin"),
    };
    let border = EdgeSizes {
        left: px(sn, "border-left-width", "border-width"),
        right: px(sn, "border-right-width", "border-width"),
        top: px(sn, "border-top-width", "border-width"),
        bottom: px(sn, "border-bottom-width", "border-width"),
    };
    let padding = EdgeSizes {
        left: px(sn, "padding-left", "padding"),
        right: px(sn, "padding-right", "padding"),
        top: px(sn, "padding-top", "padding"),
        bottom: px(sn, "padding-bottom", "padding"),
    };
    let x = clamp_wide(
        cb.content.x as i128 + margin.left as i128 + border.left as i128 + padding.left as i128,
    );
    let y = clamp_wide(
        cb.content.y as i128 + cb.content.height as i128 + margin.top as i128 + border.top as i128
            + padding.top as i128,
    );
    Dimensions { content: Rect { x, y, width: w, height: 0 }, padding, border, margin }
}

fn calculate_flow_dims(cb: Dimensions) -> (r: Dimensions)
    ensures
        r == flow_dims(cb),
{
    let e = EdgeSizes { left: 0, right: 0, top: 0, bottom: 0 };
    let y = clamp_wide(cb.content.y as i128 + cb.content.height as i128);
    Dimensions {
        content: Rect { x: cb.content.x, y, width: cb.content.width, height: 0 },
        padding: e,
        border: e,
        margin: e,
    }
}

/// The height of the margin box of `d`.
pub fn margin_box_height_of(d: &Dimensions) -> (r: i64)
    ensures
        r == margin_box_height(*d),
{
    clamp_wide(
        d.content.height as i128 + d.padding.top as i128 + d.padding.bottom as i128
            + d.border.top as i128 + d.border.bottom as i128 + d.margin.top as i128
            + d.margin.bottom as i128,
    )
}

proof fn lemma_stack_prefix<'x>(s1: Seq<LayoutBox<'x>>, s2: Seq<LayoutBox<'x>>, n: int)
    requires
        0 <= n <= s1.len(),
        n <= s2.len(),
        forall|i: int| 0 <= i < n ==> s1[i] == s2[i],
    ensures
        stack(s1, n) == stack(s2, n),
    decreases n,
{
    if n > 0 {
        lemma_stack_prefix(s1, s2, n - 1);
    }
}

proof fn lemma_lays_out_intro<'x>(b: LayoutBox<'x>, a: LayoutBox<'x>, cb: Dimensions)
    requires
        a.box_type == b.box_type,
        a.children@.len() == b.children@.len(),
        forall|j: int|
            #![trigger b.children@[j]]
            0 <= j < b.children@.len() ==> lays_out(
                b.children@[j],
                a.children@[j],
                with_height(own_dims(b, cb), stack(a.children@, j)),
            ),
        a.dimensions == with_height(
            own_dims(b, cb),
            final_height(b, stack(a.children@, a.children@.len() as int)),
        ),
    ensures
        lays_out(b, a, cb),
{
    reveal_with_fuel(lays_out, 2);
}

/// Lays out a box and its subtree in the containing block `cb`.
pub fn layout_box<'a>(b: LayoutBox<'a>, cb: Dimensions) -> (r: LayoutBox<'a>)
    ensures
        lays_out(b, r, cb),
    decreases b,
{
    let ghost b0 = b;
    let ghost kids0 = b.children@;
    let d0 = match &b.box_type {
        BoxType::BlockNode(sn) => calculate_block_dims(sn, cb),
        _ => calculate_flow_dims(cb),
    };
    let LayoutBox { dimensions: _, box_type, children } = b;
    let mut rest = children;
    let mut done: Vec<LayoutBox<'a>> = Vec::new();
    let mut cursor: i64 = 0;
    let n = rest.len();
    let mut i: usize = 0;
    while i < n
        invariant
            n == kids0.len(),
            i <= n,
            b0.children@ == kids0,
            b0 == b,
            d0 == own_dims(b0, cb),
            rest@ == kids0.subrange(i as int, n as int),
            done@.len() == i,
            cursor == stack(done@, i as int),
            forall|j: int|
                #![trigger kids0[j]]
                0 <= j < i ==> lays_out(
                    kids0[j],
                    done@[j],
                    with_height(d0, stack(done@, j)),
                ),
        decreases n - i,
    {
        let child = rest.remove(0);
        assert(child == kids0[i as int]);
        proof {
            assert(decreases_to!(b0 => b0.children@[i as int]));
            assert(decreases_to!(b => child));
        }
        let ghost before = done@;
        let laid = layout_box(child, with_height_of(d0, cursor));
        let h = margin_box_height_of(&laid.dimensions);
        done.push(laid);
        proof {
            lemma_stack_prefix(done@, before, i as int);
            assert forall|j: int| 0 <= j < i implies stack(done@, j) == stack(before, j) by {
                lemma_stack_prefix(done@, before, j);
            }
            assert(done@[i as int] == laid);
            assert(rest@ =~= kids0.subrange(i + 1, n as int));
        }
        cursor = clamp_wide(cursor as i128 + h as i128);
        i = i + 1;
    }
    let height = match &box_type {
        BoxType::BlockNode(sn) => match sn.value("height") {
            Some(Value::Length(h, Unit::Px)) => h,
            _ => cursor,
        },
        _ => cursor,
    };
    proof {
        reveal_strlit("height");
    }
    let r = LayoutBox { dimensions: with_height_of(d0, height), box_type, children: done };
    proof {
        assert(r.children@ == done@);
        lemma_lays_out_intro(b0, r, cb);
    }
    r
}

/// `d` with content height `h`.
pub fn with_height_of(d: Dimensions, h: i64) -> (r: Dimensions)
    ensures
        r == with_height(d, h),
{
    Dimensions { content: Rect { height: h, ..d.content }, ..d }
}

} // verus!

verus! {

/// Builds the box tree of `node` and lays it out in `containing_block`, starting the flow at
/// its top.
pub fn layout_tree<'a>(node: &'a StyledNode<'a>, containing_block: Dimensions) -> (r: LayoutBox<'a>)
    requires
        node.spec_display() != Display::Hidden,
    ensures
        exists|t: LayoutBox<'a>|
            builds(t, *node) && lays_out(t, r, with_height(containing_block, 0)),
{
    let cb = with_height_of(containing_block, 0);
    let root_box = build_layout_tree(node);
    let ghost t = root_box;
    let r = layout_box(root_box, cb);
    assert(builds(t, *node) && lays_out(t, r, with_height(containing_block, 0)));
    r
}

/// `x` and `y` have the same dimensions, box by box.
pub open spec fn same_geometry<'x>(x: LayoutBox<'x>, y: LayoutBox<'x>) -> bool
    decreases x,
{
    &&& x.dimensions == y.dimensions
    &&& x.children@.len() == y.children@.len()
    &&& forall|j: int|
        #![trigger x.children@[j]]
        0 <= j < x.children@.len() ==> same_geometry(x.children@[j], y.children@[j])
}

/// Layout is a function of the box tree and the containing block: two layouts of the same
/// tree in the same containing block have identical dimensions for every box.
pub proof fn lemma_layout_deterministic<'x>(b: LayoutBox<'x>, a1: LayoutBox<'x>, a2: LayoutBox<'x>, cb: Dimensions)
    requires
        lays_out(b, a1, cb),
        lays_out(b, a2, cb),
    ensures
        same_geometry(a1, a2),
    decreases b, b.children@.len() + 1,
{
    let n = b.children@.len() as int;
    lemma_children_same(b, a1, a2, cb, n);
    assert forall|j: int| 0 <= j < n implies same_geometry(#[trigger] a1.children@[j], a2.children@[j]) by {
        lemma_children_same(b, a1, a2, cb, n);
    }
    reveal_with_fuel(same_geometry, 2);
}

proof fn lemma_children_same<'x>(b: LayoutBox<'x>, a1: LayoutBox<'x>, a2: LayoutBox<'x>, cb: Dimensions, k: int)
    requires
        lays_out(b, a1, cb),
        lays_out(b, a2, cb),
        0 <= k <= b.children@.len(),
    ensures
        stack(a1.children@, k) == stack(a2.children@, k),
        forall|j: int| 0 <= j < k ==> same_geometry(#[trigger] a1.children@[j], a2.children@[j]),
    decreases b, k,
{
    if k > 0 {
        lemma_children_same(b, a1, a2, cb, k - 1);
        let j = k - 1;
        assert(lays_out(b.children@[j], a1.children@[j], with_height(own_dims(b, cb), stack(a1.children@, j))));
        assert(lays_out(b.children@[j], a2.children@[j], with_height(own_dims(b, cb), stack(a2.children@, j))));
        assert(decreases_to!(b => b.children@[j]));
        lemma_layout_deterministic(b.children@[j], a1.children@[j], a2.children@[j], with_height(own_dims(b, cb), stack(a1.children@, j)));
        assert(a1.children@[j].dimensions == a2.children@[j].dimensions);
    }
}

} // verus!

verus! {

/// A block of fixed width whose two horizontal margins are `auto` and which fits in its
/// containing block is centred: the margins share the free space evenly, the right one
/// taking the odd pixel.
pub proof fn lemma_auto_margins_center(sn: StyledNode, cbw: int, w: i64)
    requires
        sn.spec_value("width"@) == Some(Value::Length(w, Unit::Px)),
        is_auto(prop_or(sn, "margin-left"@, "margin"@)),
        is_auto(prop_or(sn, "margin-right"@, "margin"@)),
        w + px_of(sn, "border-left-width"@, "border-width"@) + px_of(
            sn,
            "border-right-width"@,
            "border-width"@,
        ) + px_of(sn, "padding-left"@, "padding"@) + px_of(sn, "padding-right"@, "padding"@)
            <= cbw,
    ensures
        ({
            let free = cbw - (w + px_of(sn, "border-left-width"@, "border-width"@) + px_of(
                sn,
                "border-right-width"@,
                "border-width"@,
            ) + px_of(sn, "padding-left"@, "padding"@) + px_of(sn, "padding-right"@, "padding"@));
            block_widths(sn, cbw) == (free / 2, w as int, free - free / 2)
        }),
{
}

} // verus!

verus! {

/// The top of the margin box of `d`.
pub open spec fn margin_top(d: Dimensions) -> int {
    d.content.y - d.padding.top - d.border.top - d.margin.top
}

/// A box is placed at the flow cursor: its content top lies its top edges below the cursor.
proof fn lemma_own_dims_top<'x>(b: LayoutBox<'x>, cb: Dimensions)
    ensures
        ({
            let d = own_dims(b, cb);
            d.content.y == clamp(
                cb.content.y + cb.content.height + d.margin.top + d.border.top + d.padding.top,
            )
        }),
{
}

/// Siblings stack: where no coordinate leaves the range of `i64`, the margin box of a child
/// starts where that of the child before it ends.
pub proof fn lemma_sibling_offsets<'x>(b: LayoutBox<'x>, a: LayoutBox<'x>, cb: Dimensions, j: int)
    requires
        lays_out(b, a, cb),
        0 <= j,
        j + 1 < b.children@.len(),
        i64::MIN <= stack(a.children@, j) + margin_box_height(a.children@[j].dimensions) <= i64::MAX,
        forall|k: int|
            j <= k <= j + 1 ==> i64::MIN <= own_dims(b, cb).content.y + stack(a.children@, k)
                + (#[trigger] a.children@[k]).dimensions.margin.top
                + a.children@[k].dimensions.border.top + a.children@[k].dimensions.padding.top
                <= i64::MAX,
    ensures
        margin_top(a.children@[j + 1].dimensions) == margin_top(a.children@[j].dimensions)
            + margin_box_height(a.children@[j].dimensions),
{
    reveal_with_fuel(lays_out, 2);
    let d0 = own_dims(b, cb);
    let c0 = with_height(d0, stack(a.children@, j));
    let c1 = with_height(d0, stack(a.children@, j + 1));
    assert(b.children@[j] == b.children@[j]);
    assert(b.children@[j + 1] == b.children@[j + 1]);
    assert(lays_out(b.children@[j], a.children@[j], c0));
    assert(lays_out(b.children@[j + 1], a.children@[j + 1], c1));
    lemma_own_dims_top(b.children@[j], c0);
    lemma_own_dims_top(b.children@[j + 1], c1);
    assert(a.children@[j] == a.children@[j]);
    assert(a.children@[j + 1] == a.children@[j + 1]);
    assert(stack(a.children@, j + 1) == clamp(
        stack(a.children@, j) + margin_box_height(a.children@[j].dimensions),
    ));
}

} // verus!
