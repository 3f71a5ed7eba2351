//! The layout-tree builder: block, inline and anonymous boxes for a styled
//! tree. Geometry is left to a later stage; every size here is zero.
use vstd::prelude::*;
use crate::error::LayoutError;
use crate::style::{Display, StyledNode, StyledView, display_of_view, styled_view, styled_views};

verus! {

/// A rectangle in whole pixels, from the document's origin.
#[derive(Clone, Copy, PartialEq, Eq, Structural, Debug)]
pub struct Rect {
    pub x: i64,
    pub y: i64,
    pub width: i64,
    pub height: i64,
}

#[derive(Clone, Copy, PartialEq, Eq, Structural, Debug)]
pub struct EdgeSizes {
    pub left: i64,
    pub right: i64,
    pub top: i64,
    pub bottom: i64,
}

#[derive(Clone, Copy, PartialEq, Eq, Structural, Debug)]
pub struct Dimensions {
    pub content: Rect,
    pub padding: EdgeSizes,
    pub border: EdgeSizes,
    pub margin: EdgeSizes,
}

pub open spec fn no_edges() -> EdgeSizes {
    EdgeSizes { left: 0, right: 0, top: 0, bottom: 0 }
}

pub open spec fn zero_dimensions() -> Dimensions {
    Dimensions {
        content: Rect { x: 0, y: 0, width: 0, height: 0 },
        padding: no_edges(),
        border: no_edges(),
        margin: no_edges(),
    }
}

impl Dimensions {
    pub fn zero() -> (r: Dimensions)
        ensures
            r == zero_dimensions(),
    {
        let edges = EdgeSizes { left: 0, right: 0, top: 0, bottom: 0 };
        Dimensions {
            content: Rect { x: 0, y: 0, width: 0, height: 0 },
            padding: edges,
            border: edges,
            margin: edges,
        }
    }
}

pub enum BoxType<'a> {
    Block(&'a StyledNode<'a>),
    Inline(&'a StyledNode<'a>),
    Anonymous,
}

pub struct LayoutBox<'a> {
    pub dimensions: Dimensions,
    pub box_type: BoxType<'a>,
    pub children: Vec<LayoutBox<'a>>,
}

pub enum BoxKind {
    Block(StyledView),
    Inline(StyledView),
    Anonymous,
}

pub struct BoxView {
    pub kind: BoxKind,
    pub dimensions: Dimensions,
    pub children: Seq<BoxView>,
}

pub open spec fn kind_of(t: BoxType) -> BoxKind {
    match t {
        BoxType::Block(n) => BoxKind::Block(styled_view(*n)),
        BoxType::Inline(n) => BoxKind::Inline(styled_view(*n)),
        BoxType::Anonymous => BoxKind::Anonymous,
    }
}

pub open spec fn boxes_view(bs: Seq<LayoutBox>) -> Seq<BoxView>
    decreases bs,
{
    if bs.len() == 0 {
        Seq::empty()
    } else {
        boxes_view(bs.drop_last()).push(box_view(bs.last()))
    }
}

pub open spec fn box_view(b: LayoutBox) -> BoxView
    decreases b,
{
    BoxView { kind: kind_of(b.box_type), dimensions: b.dimensions, children: boxes_view(b.children@) }
}

pub open spec fn anonymous(children: Seq<BoxView>) -> BoxView {
    BoxView { kind: BoxKind::Anonymous, dimensions: zero_dimensions(), children }
}

/// The children of a box once a box `b` for inline content is added:
/// directly into an inline container; in a block container, into its last
/// child when that is anonymous, or else into a new anonymous box.
pub open spec fn add_inline(block: bool, acc: Seq<BoxView>, b: BoxView) -> Seq<BoxView> {
    if !block {
        acc.push(b)
    } else if acc.len() > 0 && acc.last().kind is Anonymous {
        acc.drop_last().push(anonymous(acc.last().children.push(b)))
    } else {
        acc.push(anonymous(seq![b]))
    }
}

/// The box of a styled node whose display is not `none`. No geometry is
/// computed here: every box's dimensions are zero.
pub open spec fn box_of(v: StyledView) -> BoxView
    decreases v,
{
    let block = display_of_view(v) == Display::Block;
    BoxView {
        kind: if block { BoxKind::Block(v) } else { BoxKind::Inline(v) },
        dimensions: zero_dimensions(),
        children: boxes_of(block, v.children),
    }
}

/// The child boxes for the styled children `cs` of a block (or inline)
/// container, in order; a child with display `none` gets none.
pub open spec fn boxes_of(block: bool, cs: Seq<StyledView>) -> Seq<BoxView>
    decreases cs,
{
    if cs.len() == 0 {
        Seq::empty()
    } else {
        let acc = boxes_of(block, cs.drop_last());
        let c = cs.last();
        if display_of_view(c) == Display::Hidden {
            acc
        } else if display_of_view(c) == Display::Block {
            acc.push(box_of(c))
        } else {
            add_inline(block, acc, box_of(c))
        }
    }
}

pub proof fn lemma_boxes_zero(block: bool, cs: Seq<StyledView>)
    ensures
        forall|i: int| 0 <= i < boxes_of(block, cs).len()
            ==> (#[trigger] boxes_of(block, cs)[i]).dimensions == zero_dimensions(),
    decreases cs.len(),
{
    if cs.len() > 0 {
        lemma_boxes_zero(block, cs.drop_last());
        let acc = boxes_of(block, cs.drop_last());
        let r = boxes_of(block, cs);
        let c = cs.last();
        assert(box_of(c).dimensions == zero_dimensions());
        assert forall|i: int| 0 <= i < r.len() implies (#[trigger] r[i]).dimensions == zero_dimensions() by {
            if display_of_view(c) == Display::Hidden {
            } else if display_of_view(c) == Display::Block || !block {
                assert(r == acc.push(box_of(c)));
                if i < acc.len() {
                    assert(r[i] == acc[i]);
                }
            } else if acc.len() > 0 && acc.last().kind is Anonymous {
                assert(r == acc.drop_last().push(anonymous(acc.last().children.push(box_of(c)))));
                if i < acc.len() - 1 {
                    assert(r[i] == acc[i]);
                }
            } else {
                assert(r == acc.push(anonymous(seq![box_of(c)])));
                if i < acc.len() {
                    assert(r[i] == acc[i]);
                }
            }
        }
    }
}

/// The layout tree of a styled tree; a root with display `none` has none.
pub open spec fn layout_of(v: StyledView) -> Result<BoxView, LayoutError> {
    if display_of_view(v) == Display::Hidden {
        Err(LayoutError::NoVisualRoot)
    } else {
        Ok(box_of(v))
    }
}

/// The children that a block container has once it can take inline content:
/// unchanged when its last child is anonymous, else with an empty anonymous
/// box added.
pub open spec fn with_anonymous_tail(acc: Seq<BoxView>) -> Seq<BoxView> {
    if acc.len() > 0 && acc.last().kind is Anonymous {
        acc
    } else {
        acc.push(anonymous(Seq::empty()))
    }
}

impl<'a> LayoutBox<'a> {
    pub fn new(box_type: BoxType<'a>) -> (r: LayoutBox<'a>)
        ensures
            r.box_type == box_type,
            r.children@.len() == 0,
            r.dimensions == zero_dimensions(),
    {
        LayoutBox { dimensions: Dimensions::zero(), box_type, children: Vec::new() }
    }

    /// Makes room for inline content: a block box gets an anonymous last
    /// child (the one it has, or a new one); inline and anonymous boxes take
    /// inline content themselves and stay as they are.
    pub fn generate_anonymous_box(&mut self)
        ensures
            final(self).box_type == old(self).box_type,
            final(self).dimensions == old(self).dimensions,
            old(self).box_type is Block && old(self).children@.len() > 0
                && old(self).children@.last().box_type is Anonymous
                ==> final(self).children@ == old(self).children@,
            old(self).box_type is Block && !(old(self).children@.len() > 0
                && old(self).children@.last().box_type is Anonymous) ==> {
                &&& final(self).children@.len() == old(self).children@.len() + 1
                &&& final(self).children@.drop_last() == old(self).children@
                &&& final(self).children@.last().box_type is Anonymous
                &&& final(self).children@.last().children@.len() == 0
                &&& final(self).children@.last().dimensions == zero_dimensions()
            },
            old(self).box_type is Block
                ==> boxes_view(final(self).children@) == with_anonymous_tail(boxes_view(old(self).children@)),
            !(old(self).box_type is Block) ==> final(self).children == old(self).children,
    {
        match self.box_type {
            BoxType::Block(_) => {
                let n = self.children.len();
                let has_tail = n > 0 && match self.children[n - 1].box_type {
                    BoxType::Anonymous => true,
                    _ => false,
                };
                let ghost before = self.children@;
                if !has_tail {
                    self.children.push(LayoutBox::new(BoxType::Anonymous));
                    proof {
                        assert(self.children@.drop_last() =~= before);
                        assert(boxes_view(Seq::<LayoutBox>::empty()) =~= Seq::<BoxView>::empty());
                        assert(box_view(self.children@.last()) == anonymous(Seq::empty()));
                    }
                } else {
                    assert(box_view(before.last()).kind is Anonymous);
                }
            },
            _ => {},
        }
    }
}

fn build_box<'a>(node: &'a StyledNode<'a>, block: bool) -> (r: LayoutBox<'a>)
    requires
        display_of_view(styled_view(*node)) != Display::Hidden,
        block == (display_of_view(styled_view(*node)) == Display::Block),
    ensures
        box_view(r) == box_of(styled_view(*node)),
    decreases node,
{
    let mut root = LayoutBox::new(if block { BoxType::Block(node) } else { BoxType::Inline(node) });
    let ghost kids = styled_views(node.children@);
    let mut i: usize = 0;
    assert(node.children@.subrange(0, 0) =~= Seq::<StyledNode>::empty());
    assert(boxes_view(root.children@) =~= Seq::<BoxView>::empty());
    while i < node.children.len()
        invariant
            i <= node.children@.len(),
            root.box_type == (if block { BoxType::Block(node) } else { BoxType::Inline(node) }),
            root.dimensions == zero_dimensions(),
            boxes_view(root.children@) == boxes_of(block, styled_views(node.children@.subrange(0, i as int))),
        decreases node.children@.len() - i,
    {
        let child = &node.children[i];
        let ghost acc = boxes_view(root.children@);
        let ghost sub = node.children@.subrange(0, i + 1);
        proof {
            assert(sub.drop_last() =~= node.children@.subrange(0, i as int));
            assert(sub.last() == *child);
            let sv = styled_views(sub);
            assert(sv.drop_last() =~= styled_views(node.children@.subrange(0, i as int)));
            assert(sv.last() == styled_view(*child));
            assert(boxes_of(block, sv) == {
                let c = styled_view(*child);
                if display_of_view(c) == Display::Hidden {
                    acc
                } else if display_of_view(c) == Display::Block {
                    acc.push(box_of(c))
                } else {
                    add_inline(block, acc, box_of(c))
                }
            });
        }
        match child.display() {
            Display::Block => {
                let b = build_box(child, true);
                let ghost before = root.children@;
                root.children.push(b);
                assert(root.children@.drop_last() =~= before);
            },
            Display::Inline => {
                let b = build_box(child, false);
                if block {
                    root.generate_anonymous_box();
                    let ghost tail = root.children@;
                    let last = root.children.pop();
                    match last {
                        Some(mut anon) => {
                            let ghost inner = anon.children@;
                            anon.children.push(b);
                            let ghost rest = root.children@;
                            let ghost filled = anon;
                            root.children.push(anon);
                            proof {
                                let tv = with_anonymous_tail(acc);
                                lemma_boxes_zero(block, styled_views(node.children@.subrange(0, i as int)));
                                assert(tail.drop_last() =~= rest);
                                assert(boxes_view(tail) == tv);
                                assert(tail.len() > 0);
                                assert(boxes_view(tail) == boxes_view(tail.drop_last()).push(box_view(tail.last())));
                                assert(boxes_view(rest) == tv.drop_last());
                                assert(boxes_view(inner) == tv.last().children);
                                assert(anon.box_type is Anonymous);
                                assert(anon.children@.drop_last() =~= inner);
                                assert(boxes_view(anon.children@) == boxes_view(inner).push(box_view(b)));
                                assert(root.children@.drop_last() =~= rest);
                                assert(root.children@.last() == filled);
                                assert(box_view(filled) == anonymous(tv.last().children.push(box_view(b))));
                                assert(boxes_view(root.children@) == boxes_view(rest).push(box_view(filled)));
                                assert(boxes_view(root.children@) == tv.drop_last().push(anonymous(tv.last().children.push(box_view(b)))));
                                assert(seq![box_view(b)] =~= Seq::<BoxView>::empty().push(box_view(b)));
                                if !(acc.len() > 0 && acc.last().kind is Anonymous) {
                                    assert(tv.drop_last() =~= acc);
                                }
                            }
                        },
                        None => {},
                    }
                } else {
                    let ghost before = root.children@;
                    root.children.push(b);
                    assert(root.children@.drop_last() =~= before);
                }
            },
            Display::Hidden => {},
        }
        i = i + 1;
    }
    assert(node.children@.subrange(0, i as int) =~= node.children@);
    root
}

/// The layout tree of a styled tree.
pub fn build_layout_tree<'a>(style_node: &'a StyledNode<'a>) -> (r: Result<LayoutBox<'a>, LayoutError>)
    ensures
        match r {
            Ok(b) => layout_of(styled_view(*style_node)) == Ok::<BoxView, LayoutError>(box_view(b)),
            Err(e) => layout_of(styled_view(*style_node)) == Err::<BoxView, LayoutError>(e),
        },
{
    match style_node.display() {
        Display::Block => Ok(build_box(style_node, true)),
        Display::Inline => Ok(build_box(style_node, false)),
        Display::Hidden => Err(LayoutError::NoVisualRoot),
    }
}

/// A block whose children are block, inline, inline, block gets three
/// boxes: the first block, one anonymous box holding both inline boxes, and
/// the last block.
pub proof fn lemma_inline_run_shares_anonymous_box(v: StyledView)
    requires
        display_of_view(v) == Display::Block,
        v.children.len() == 4,
        display_of_view(v.children[0]) == Display::Block,
        display_of_view(v.children[1]) == Display::Inline,
        display_of_view(v.children[2]) == Display::Inline,
        display_of_view(v.children[3]) == Display::Block,
    ensures
        box_of(v).children == seq![
            box_of(v.children[0]),
            anonymous(seq![box_of(v.children[1]), box_of(v.children[2])]),
            box_of(v.children[3]),
        ],
        box_of(v).children.len() == 3,
{
    let cs = v.children;
    let c0 = box_of(cs[0]);
    let c1 = box_of(cs[1]);
    let c2 = box_of(cs[2]);
    let c3 = box_of(cs[3]);
    assert(cs.subrange(0, 1).drop_last() =~= Seq::<StyledView>::empty());
    assert(boxes_of(true, Seq::<StyledView>::empty()) == Seq::<BoxView>::empty());
    assert(cs.subrange(0, 1).last() == cs[0]);
    assert(cs.subrange(0, 2).last() == cs[1]);
    assert(cs.subrange(0, 3).last() == cs[2]);
    assert(boxes_of(true, cs.subrange(0, 1)) =~= seq![c0]);
    assert(cs.subrange(0, 2).drop_last() =~= cs.subrange(0, 1));
    assert(boxes_of(true, cs.subrange(0, 2)) =~= seq![c0, anonymous(seq![c1])]);
    assert(cs.subrange(0, 3).drop_last() =~= cs.subrange(0, 2));
    assert(seq![c1].push(c2) =~= seq![c1, c2]);
    assert(boxes_of(true, cs.subrange(0, 3)) =~= seq![c0, anonymous(seq![c1, c2])]);
    assert(cs.drop_last() =~= cs.subrange(0, 3));
    assert(boxes_of(true, cs) =~= seq![c0, anonymous(seq![c1, c2]), c3]);
}

/// A child with display `none` adds nothing to its parent's boxes, wherever
/// it stands among the children: no box, and no split of an inline run.
pub proof fn lemma_hidden_child_absent(block: bool, cs: Seq<StyledView>, k: int, c: StyledView)
    requires
        display_of_view(c) == Display::Hidden,
        0 <= k <= cs.len(),
    ensures
        boxes_of(block, cs.insert(k, c)) == boxes_of(block, cs),
    decreases cs.len(),
{
    let ci = cs.insert(k, c);
    if k == cs.len() {
        assert(ci.drop_last() =~= cs);
        assert(ci.last() == c);
    } else {
        assert(ci.drop_last() =~= cs.drop_last().insert(k, c));
        assert(ci.last() == cs.last());
        lemma_hidden_child_absent(block, cs.drop_last(), k, c);
    }
}

} // verus!
