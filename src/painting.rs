//! Painting a laid-out box tree onto a canvas of pixels.
use vstd::prelude::*;
use crate::css::{Color, Value};
use crate::layout::{clamp, BoxType, Dimensions, LayoutBox, Rect};

verus! {

/// Fill a rectangle with a color.
#[derive(Clone, Copy, Debug, PartialEq, Eq, Structural)]
pub enum DisplayCommand {
    SolidColor(Color, Rect),
}

/// A grid of pixels, row after row.
pub struct Canvas {
    pub pixels: Vec<Color>,
    pub width: usize,
    pub height: usize,
}

pub open spec fn white() -> Color {
    Color { r: 255, g: 255, b: 255, a: 255 }
}

/// The border box of `d`: the content rectangle grown by padding and border.
pub open spec fn border_box(d: Dimensions) -> Rect {
    Rect {
        x: clamp(d.content.x - d.padding.left - d.border.left),
        y: clamp(d.content.y - d.padding.top - d.border.top),
        width: clamp(
            d.content.width + d.padding.left + d.padding.right + d.border.left + d.border.right,
        ),
        height: clamp(
            d.content.height + d.padding.top + d.padding.bottom + d.border.top + d.border.bottom,
        ),
    }
}

/// The color that property `name` gives the box, if it is a color; anonymous boxes have none.
pub open spec fn box_color<'x>(b: LayoutBox<'x>, name: Seq<char>) -> Option<Color> {
    match b.box_type {
        BoxType::BlockNode(sn) | BoxType::InlineNode(sn) => match sn.spec_value(name) {
            Some(Value::ColorValue(c)) => Some(c),
            _ => None,
        },
        BoxType::AnonymousBlock => None,
    }
}

pub open spec fn edge_cmd(c: Color, r: Rect, w: i64) -> Seq<DisplayCommand> {
    if w != 0 {
        seq![DisplayCommand::SolidColor(c, r)]
    } else {
        Seq::empty()
    }
}

/// The box's own commands: its background over the border box, then each border edge of
/// non-zero width, left, right, top and bottom.
pub open spec fn own_commands<'x>(b: LayoutBox<'x>) -> Seq<DisplayCommand> {
    let d = b.dimensions;
    let bb = border_box(d);
    let background = match box_color(b, "background"@) {
        Some(c) => seq![DisplayCommand::SolidColor(c, bb)],
        None => Seq::empty(),
    };
    let borders = match box_color(b, "border-color"@) {
        Some(c) => edge_cmd(c, Rect { width: d.border.left, ..bb }, d.border.left) + edge_cmd(
            c,
            Rect { x: clamp(bb.x + bb.width - d.border.right), width: d.border.right, ..bb },
            d.border.right,
        ) + edge_cmd(c, Rect { height: d.border.top, ..bb }, d.border.top) + edge_cmd(
            c,
            Rect { y: clamp(bb.y + bb.height - d.border.bottom), height: d.border.bottom, ..bb },
            d.border.bottom,
        ),
        None => Seq::empty(),
    };
    background + borders
}

/// The commands of a box tree in paint order: a box before its children, children in order.
pub open spec fn display_list<'x>(b: LayoutBox<'x>) -> Seq<DisplayCommand>
    decreases b, 1int,
{
    own_commands(b) + children_list(b.children@, b.children@.len() as int)
}

/// The commands of the first `n` boxes of `kids`, one tree after another.
pub open spec fn children_list<'x>(kids: Seq<LayoutBox<'x>>, n: int) -> Seq<DisplayCommand>
    decreases kids, n,
{
    if n <= 0 || n > kids.len() {
        Seq::empty()
    } else {
        children_list(kids, n - 1) + display_list(kids[n - 1])
    }
}

/// `r` covers the point (`x`, `y`).
pub open spec fn covers(r: Rect, x: int, y: int) -> bool {
    r.x <= x < r.x + r.width && r.y <= y < r.y + r.height
}

/// The color of point (`x`, `y`) after the first `n` commands: that of the last one to
/// cover it, else white.
pub open spec fn painted(cmds: Seq<DisplayCommand>, n: int, x: int, y: int) -> Color
    decreases n,
{
    if n <= 0 {
        white()
    } else {
        match cmds[n - 1] {
            DisplayCommand::SolidColor(c, r) => if covers(r, x, y) {
                c
            } else {
                painted(cmds, n - 1, x, y)
            },
        }
    }
}

} // verus!

verus! {

fn get_color(b: &LayoutBox, name: &str) -> (r: Option<Color>)
    ensures
        r == box_color(*b, name@),
{
    match &b.box_type {
        BoxType::BlockNode(sn) | BoxType::InlineNode(sn) => match sn.value(name) {
            Some(Value::ColorValue(c)) => Some(c),
            _ => None,
        },
        BoxType::AnonymousBlock => None,
    }
}

fn clamp_wide(x: i128) -> (r: i64)
    ensures
        r == clamp(x as int),
{
    if x > i64::MAX as i128 {
        i64::MAX
    } else if x < i64::MIN as i128 {
        i64::MIN
    } else {
        x as i64
    }
}

/// The border box of `d`.
pub fn border_box_of(d: &Dimensions) -> (r: Rect)
    ensures
        r == border_box(*d),
{
    Rect {
        x: clamp_wide(d.content.x as i128 - d.padding.left as i128 - d.border.left as i128),
        y: clamp_wide(d.content.y as i128 - d.padding.top as i128 - d.border.top as i128),
        width: clamp_wide(
            d.content.width as i128 + d.padding.left as i128 + d.padding.right as i128
                + d.border.left as i128 + d.border.right as i128,
        ),
        height: clamp_wide(
            d.content.height as i128 + d.padding.top as i128 + d.padding.bottom as i128
                + d.border.top as i128 + d.border.bottom as i128,
        ),
    }
}

fn push_edge(list: &mut Vec<DisplayCommand>, c: Color, r: Rect, w: i64)
    ensures
        final(list)@ == old(list)@ + edge_cmd(c, r, w),
{
    if w != 0 {
        list.push(DisplayCommand::SolidColor(c, r));
        assert(final(list)@ =~= old(list)@ + edge_cmd(c, r, w));
    } else {
        assert(list@ =~= old(list)@ + edge_cmd(c, r, w));
    }
}

fn render_own(list: &mut Vec<DisplayCommand>, b: &LayoutBox)
    ensures
        final(list)@ == old(list)@ + own_commands(*b),
{
    proof {
        reveal_strlit("background");
        reveal_strlit("border-color");
    }
    let ghost start = list@;
    let d = b.dimensions;
    let bb = border_box_of(&d);
    if let Some(c) = get_color(b, "background") {
        list.push(DisplayCommand::SolidColor(c, bb));
    }
    let ghost mid = list@;
    assert(mid =~= start + (match box_color(*b, "background"@) {
        Some(c) => seq![DisplayCommand::SolidColor(c, bb)],
        None => Seq::<DisplayCommand>::empty(),
    }));
    if let Some(c) = get_color(b, "border-color") {
        push_edge(list, c, Rect { width: d.border.left, ..bb }, d.border.left);
        let right_x = clamp_wide(bb.x as i128 + bb.width as i128 - d.border.right as i128);
        push_edge(list, c, Rect { x: right_x, width: d.border.right, ..bb }, d.border.right);
        push_edge(list, c, Rect { height: d.border.top, ..bb }, d.border.top);
        let bottom_y = clamp_wide(bb.y as i128 + bb.height as i128 - d.border.bottom as i128);
        push_edge(list, c, Rect { y: bottom_y, height: d.border.bottom, ..bb }, d.border.bottom);
        assert(list@ =~= start + own_commands(*b));
    } else {
        assert(list@ =~= start + own_commands(*b));
    }
}

fn render_layout_box(list: &mut Vec<DisplayCommand>, b: &LayoutBox)
    ensures
        final(list)@ == old(list)@ + display_list(*b),
    decreases b,
{
    let ghost start = list@;
    render_own(list, b);
    let ghost kids = b.children@;
    let mut i: usize = 0;
    while i < b.children.len()
        invariant
            kids == b.children@,
            i <= kids.len(),
            list@ == start + own_commands(*b) + children_list(kids, i as int),
        decreases b.children.len() - i,
    {
        let ghost before = list@;
        render_layout_box(list, &b.children[i]);
        proof {
            assert(children_list(kids, i + 1) == children_list(kids, i as int) + display_list(kids[i as int]));
            assert(list@ =~= start + own_commands(*b) + children_list(kids, i + 1));
        }
        i = i + 1;
    }
    assert(list@ =~= start + display_list(*b));
}

/// The commands that paint `root`, in paint order.
pub fn build_display_list(root: &LayoutBox) -> (r: Vec<DisplayCommand>)
    ensures
        r@ == display_list(*root),
{
    let mut list: Vec<DisplayCommand> = Vec::new();
    render_layout_box(&mut list, root);
    assert(list@ =~= display_list(*root));
    list
}

} // verus!

verus! {

/// The pixel at column `x` of row `y` of a grid `w` pixels wide.
pub open spec fn pixel(pixels: Seq<Color>, w: int, x: int, y: int) -> Color {
    pixels[y * w + x]
}

proof fn lemma_index_in_bounds(w: int, h: int, x: int, y: int)
    requires
        0 <= x < w,
        0 <= y < h,
    ensures
        0 <= y * w + x < w * h,
{
    assert(0 <= y * w) by (nonlinear_arith)
        requires
            0 <= y,
            0 <= w,
    ;
    assert(y * w + w <= h * w) by (nonlinear_arith)
        requires
            y + 1 <= h,
            0 <= w,
    ;
    assert(h * w == w * h) by (nonlinear_arith);
}

proof fn lemma_index_unique(w: int, x1: int, y1: int, x2: int, y2: int)
    requires
        0 <= x1 < w,
        0 <= x2 < w,
        0 <= y1,
        0 <= y2,
        y1 * w + x1 == y2 * w + x2,
    ensures
        x1 == x2,
        y1 == y2,
{
    if y1 < y2 {
        assert(y1 * w + w <= y2 * w) by (nonlinear_arith)
            requires
                y1 + 1 <= y2,
                0 <= w,
        ;
    } else if y2 < y1 {
        assert(y2 * w + w <= y1 * w) by (nonlinear_arith)
            requires
                y2 + 1 <= y1,
                0 <= w,
        ;
    }
}

/// `v` held to `0..=limit`.
fn clip(v: i128, limit: usize) -> (r: usize)
    ensures
        r == (if v < 0 {
            0
        } else if v > limit {
            limit as int
        } else {
            v as int
        }),
{
    if v < 0 {
        0
    } else if v > limit as i128 {
        limit
    } else {
        v as usize
    }
}

impl Canvas {
    /// Every pixel of the canvas, by column and row.
    pub open spec fn at(&self, x: int, y: int) -> Color {
        pixel(self.pixels@, self.width as int, x, y)
    }

    pub open spec fn wf(&self) -> bool {
        self.pixels@.len() == self.width * self.height
    }

    /// A white canvas.
    pub fn new(width: usize, height: usize) -> (r: Canvas)
        requires
            width * height <= usize::MAX,
        ensures
            r.wf(),
            r.width == width,
            r.height == height,
            forall|i: int| 0 <= i < r.pixels@.len() ==> r.pixels@[i] == white(),
    {
        let n = width * height;
        let mut pixels: Vec<Color> = Vec::new();
        let mut i: usize = 0;
        while i < n
            invariant
                i <= n,
                pixels@.len() == i,
                forall|k: int| 0 <= k < i ==> pixels@[k] == white(),
            decreases n - i,
        {
            pixels.push(Color { r: 255, g: 255, b: 255, a: 255 });
            i = i + 1;
        }
        Canvas { pixels, width, height }
    }

    /// Fills the part of the command's rectangle that lies on the canvas.
    pub fn paint_item(&mut self, item: &DisplayCommand)
        requires
            old(self).wf(),
        ensures
            final(self).wf(),
            final(self).width == old(self).width,
            final(self).height == old(self).height,
            forall|x: int, y: int|
                0 <= x < old(self).width && 0 <= y < old(self).height ==> #[trigger] final(self).at(x, y)
                    == match *item {
                    DisplayCommand::SolidColor(c, r) => if covers(r, x, y) {
                        c
                    } else {
                        old(self).at(x, y)
                    },
                },
    {
        let ghost old_pixels = self.pixels@;
        let w = self.width;
        let h = self.height;
        let count = self.pixels.len();
        assert(count == w * h);
        let DisplayCommand::SolidColor(color, rect) = *item;
        let x0 = clip(rect.x as i128, w);
        let y0 = clip(rect.y as i128, h);
        let x1 = clip(rect.x as i128 + rect.width as i128, w);
        let y1 = clip(rect.y as i128 + rect.height as i128, h);
        let mut y: usize = y0;
        while y < y1
            invariant
                self.width == w,
                self.height == h,
                self.pixels@.len() == w * h,
                w * h <= usize::MAX,
                old_pixels.len() == w * h,
                y0 <= y <= h,
                y <= y1 || y == y0,
                y1 <= h,
                x1 <= w,
                x0 <= w,
                forall|px: int, py: int|
                    0 <= px < w && 0 <= py < h ==> #[trigger] pixel(self.pixels@, w as int, px, py)
                        == if y0 <= py < y && x0 <= px < x1 {
                        color
                    } else {
                        pixel(old_pixels, w as int, px, py)
                    },
            decreases y1 - y,
        {
            let mut x: usize = x0;
            while x < x1
                invariant
                    self.width == w,
                    self.height == h,
                    self.pixels@.len() == w * h,
                    w * h <= usize::MAX,
                    old_pixels.len() == w * h,
                    y0 <= y < y1 <= h,
                    x0 <= x <= w,
                    x <= x1 || x == x0,
                    x1 <= w,
                    forall|px: int, py: int|
                        0 <= px < w && 0 <= py < h ==> #[trigger] pixel(self.pixels@, w as int, px, py)
                            == if (y0 <= py < y && x0 <= px < x1) || (py == y && x0 <= px < x) {
                            color
                        } else {
                            pixel(old_pixels, w as int, px, py)
                        },
                decreases x1 - x,
            {
                proof {
                    lemma_index_in_bounds(w as int, h as int, x as int, y as int);
                }
                let ghost before = self.pixels@;
                let idx = y * w + x;
                self.pixels.set(idx, color);
                proof {
                    assert forall|px: int, py: int|
                        0 <= px < w && 0 <= py < h implies #[trigger] pixel(self.pixels@, w as int, px, py)
                            == if (y0 <= py < y && x0 <= px < x1) || (py == y && x0 <= px < x + 1) {
                            color
                        } else {
                            pixel(old_pixels, w as int, px, py)
                        } by {
                        lemma_index_in_bounds(w as int, h as int, px, py);
                        assert(pixel(before, w as int, px, py) == before[py * w + px]);
                        if py * w + px == idx {
                            lemma_index_unique(w as int, px, py, x as int, y as int);
                        } else {
                            assert(!(px == x && py == y));
                        }
                    }
                }
                x = x + 1;
            }
            y = y + 1;
        }
        assert forall|px: int, py: int|
            0 <= px < w && 0 <= py < h implies #[trigger] self.at(px, py) == (if covers(rect, px, py) {
                color
            } else {
                pixel(old_pixels, w as int, px, py)
            }) by {
            assert(self.at(px, py) == pixel(self.pixels@, w as int, px, py));
        }
    }
}

/// Paints the box tree rooted at `root` on a white canvas the size of `bounds`; a negative
/// size counts as zero.
pub fn paint(root: &LayoutBox, bounds: Rect) -> (r: Canvas)
    requires
        bounds.width <= usize::MAX,
        bounds.height <= usize::MAX,
        (if bounds.width < 0 { 0 } else { bounds.width as int }) * (if bounds.height < 0 {
            0
        } else {
            bounds.height as int
        }) <= usize::MAX,
    ensures
        r.wf(),
        r.width == (if bounds.width < 0 { 0 } else { bounds.width as int }),
        r.height == (if bounds.height < 0 { 0 } else { bounds.height as int }),
        forall|x: int, y: int|
            0 <= x < r.width && 0 <= y < r.height ==> #[trigger] r.at(x, y) == painted(
                display_list(*root),
                display_list(*root).len() as int,
                x,
                y,
            ),
{
    let list = build_display_list(root);
    let w: usize = if bounds.width < 0 { 0 } else { bounds.width as usize };
    let h: usize = if bounds.height < 0 { 0 } else { bounds.height as usize };
    let mut canvas = Canvas::new(w, h);
    proof {
        assert forall|x: int, y: int| 0 <= x < w && 0 <= y < h implies #[trigger] canvas.at(x, y) == painted(list@, 0, x, y) by {
            lemma_index_in_bounds(w as int, h as int, x, y);
        }
    }
    let mut i: usize = 0;
    while i < list.len()
        invariant
            list@ == display_list(*root),
            i <= list@.len(),
            canvas.wf(),
            canvas.width == w,
            canvas.height == h,
            forall|x: int, y: int|
                0 <= x < w && 0 <= y < h ==> #[trigger] canvas.at(x, y) == painted(list@, i as int, x, y),
        decreases list.len() - i,
    {
        canvas.paint_item(&list[i]);
        i = i + 1;
    }
    canvas
}

} // verus!

verus! {

/// A command whose rectangle covers a point decides its color, whatever was painted before.
pub proof fn lemma_cover_decides(cmds: Seq<DisplayCommand>, c: Color, r: Rect, x: int, y: int)
    requires
        covers(r, x, y),
    ensures
        painted(
            cmds.push(DisplayCommand::SolidColor(c, r)),
            cmds.len() + 1int,
            x,
            y,
        ) == c,
{
}

/// A rectangle of zero (or negative) width or height paints no pixel.
pub proof fn lemma_empty_rect_paints_nothing(cmds: Seq<DisplayCommand>, c: Color, r: Rect, x: int, y: int)
    requires
        r.width <= 0 || r.height <= 0,
    ensures
        painted(
            cmds.push(DisplayCommand::SolidColor(c, r)),
            cmds.len() + 1int,
            x,
            y,
        ) == painted(cmds, cmds.len() as int, x, y),
{
    let cmds2 = cmds.push(DisplayCommand::SolidColor(c, r));
    lemma_painted_prefix(cmds2, cmds, cmds.len() as int, x, y);
}

proof fn lemma_painted_prefix(s1: Seq<DisplayCommand>, s2: Seq<DisplayCommand>, n: int, x: int, y: int)
    requires
        0 <= n <= s1.len(),
        n <= s2.len(),
        forall|i: int| 0 <= i < n ==> s1[i] == s2[i],
    ensures
        painted(s1, n, x, y) == painted(s2, n, x, y),
    decreases n,
{
    if n > 0 {
        lemma_painted_prefix(s1, s2, n - 1, x, y);
    }
}

} // verus!
