use crate::css::ValueModel;
use crate::dom::NodeKind;
use crate::style::{display_of, Display, StyledNode, StyledTree};
use vstd::prelude::*;

verus! {

pub enum BoxType<'a> {
    BlockNode(&'a StyledNode<'a>),
    InlineNode(&'a StyledNode<'a>),
    AnonymousBlock,
}

/// A box of the box tree. Its geometry belongs to the layout stage that consumes
/// the tree, and is not held here.
pub struct LayoutBox<'a> {
    pub box_type: BoxType<'a>,
    pub children: Vec<LayoutBox<'a>>,
}

/// The kind of a box, as a value.
pub enum BoxKind {
    Block(StyledTree),
    Inline(StyledTree),
    Anonymous,
}

/// A box tree, as a value.
pub struct BoxTree {
    pub kind: BoxKind,
    pub children: Seq<BoxTree>,
}

/// Why a styled tree has no box tree.
#[derive(PartialEq, Eq, Structural, Clone, Copy, Debug)]
pub enum LayoutError {
    /// The root's display is `none`.
    RootDisplayNone,
}

impl<'a> BoxType<'a> {
    pub open spec fn kind(&self) -> BoxKind {
        match self {
            BoxType::BlockNode(s) => BoxKind::Block(s.tree()),
            BoxType::InlineNode(s) => BoxKind::Inline(s.tree()),
            BoxType::AnonymousBlock => BoxKind::Anonymous,
        }
    }
}

impl<'a> LayoutBox<'a> {
    pub open spec fn tree(&self) -> BoxTree
        decreases self,
    {
        BoxTree {
            kind: self.box_type.kind(),
            children: Seq::new(
                self.children@.len(),
                |i: int|
                    if 0 <= i < self.children@.len() {
                        self.children@[i].tree()
                    } else {
                        BoxTree { kind: BoxKind::Anonymous, children: Seq::empty() }
                    },
            ),
        }
    }
}

pub open spec fn box_trees(v: Seq<LayoutBox>) -> Seq<BoxTree> {
    Seq::new(v.len(), |i: int| v[i].tree())
}

/// `b` added to the children `acc` of a box of kind `kind` as inline content: into
/// the trailing anonymous block of a block box (a new one where the last child is
/// not one), and directly into any other box.
pub open spec fn add_inline(kind: BoxKind, acc: Seq<BoxTree>, b: BoxTree) -> Seq<BoxTree> {
    if kind is Block {
        if acc.len() > 0 && acc.last().kind is Anonymous {
            acc.update(
                acc.len() - 1,
                BoxTree { kind: BoxKind::Anonymous, children: acc.last().children.push(b) },
            )
        } else {
            acc.push(BoxTree { kind: BoxKind::Anonymous, children: seq![b] })
        }
    } else {
        acc.push(b)
    }
}

/// The box of a styled node whose display is not `none`, with the boxes of its
/// subtree.
pub open spec fn build_spec(sn: StyledTree) -> BoxTree
    decreases sn,
{
    let kind = if display_of(sn.values) == Display::Block {
        BoxKind::Block(sn)
    } else {
        BoxKind::Inline(sn)
    };
    BoxTree { kind, children: box_children(kind, sn.children) }
}

/// The child boxes that a box of kind `kind` gets for the styled children `cs`:
/// block children as they are, inline children as inline content, and nothing for
/// children whose display is `none`.
pub open spec fn box_children(kind: BoxKind, cs: Seq<StyledTree>) -> Seq<BoxTree>
    decreases cs,
{
    if cs.len() == 0 {
        Seq::empty()
    } else {
        let acc = box_children(kind, cs.drop_last());
        let c = cs.last();
        match display_of(c.values) {
            Display::Block => acc.push(build_spec(c)),
            Display::Inline => add_inline(kind, acc, build_spec(c)),
            Display::Hidden => acc,
        }
    }
}

impl<'a> LayoutBox<'a> {
    fn new(box_type: BoxType<'a>) -> (r: LayoutBox<'a>)
        ensures
            r.box_type == box_type,
            r.children@.len() == 0,
    {
        LayoutBox { box_type, children: Vec::new() }
    }

    /// Adds `b` as inline content: to the box itself where it is inline or anonymous,
    /// else to its trailing anonymous block, made where there is none.
    fn push_inline(&mut self, b: LayoutBox<'a>)
        ensures
            final(self).box_type == old(self).box_type,
            box_trees(final(self).children@) == add_inline(
                old(self).box_type.kind(),
                box_trees(old(self).children@),
                b.tree(),
            ),
    {
        let ghost before = box_trees(self.children@);
        let ghost bt = b.tree();
        match self.box_type {
            BoxType::BlockNode(_) => {
                let n = self.children.len();
                if n > 0 {
                    let mut last = self.children.pop().unwrap();
                    assert(box_trees(self.children@) =~= before.drop_last());
                    match last.box_type {
                        BoxType::AnonymousBlock => {
                            let ghost lc = box_trees(last.children@);
                            assert(last.tree().children =~= lc);
                            last.children.push(b);
                            assert(box_trees(last.children@) =~= lc.push(bt));
                            assert(last.tree().children =~= box_trees(last.children@));
                            self.children.push(last);
                            assert(box_trees(self.children@) =~= before.update(
                                before.len() - 1,
                                BoxTree { kind: BoxKind::Anonymous, children: before.last().children.push(bt) },
                            ));
                            return ;
                        },
                        _ => {
                            self.children.push(last);
                            assert(box_trees(self.children@) =~= before);
                        },
                    }
                }
                let mut anon = LayoutBox::new(BoxType::AnonymousBlock);
                anon.children.push(b);
                assert(anon.tree().children =~= seq![bt]);
                self.children.push(anon);
                assert(box_trees(self.children@) =~= before.push(
                    BoxTree { kind: BoxKind::Anonymous, children: seq![bt] },
                ));
            },
            _ => {
                self.children.push(b);
                assert(box_trees(self.children@) =~= before.push(bt));
            },
        }
    }
}

/// The box of `style_node`, whose display is not `none`, and of its subtree.
fn build_box<'a>(style_node: &'a StyledNode<'a>) -> (r: LayoutBox<'a>)
    requires
        display_of(style_node.tree().values) != Display::Hidden,
    ensures
        r.tree() == build_spec(style_node.tree()),
    decreases style_node,
{
    let mut root = LayoutBox::new(
        match style_node.display() {
            Display::Block => BoxType::BlockNode(style_node),
            _ => BoxType::InlineNode(style_node),
        },
    );
    let ghost sn = style_node.tree();
    let ghost kind = root.box_type.kind();
    let mut i: usize = 0;
    assert(box_trees(root.children@) =~= box_children(kind, sn.children.subrange(0, 0)));
    while i < style_node.children.len()
        invariant
            sn == style_node.tree(),
            kind == root.box_type.kind(),
            kind == build_spec(sn).kind,
            i <= style_node.children@.len(),
            box_trees(root.children@) == box_children(kind, sn.children.subrange(0, i as int)),
        decreases style_node.children.len() - i,
    {
        let child = &style_node.children[i];
        assert(sn.children[i as int] == child.tree());
        assert(sn.children.subrange(0, i + 1).drop_last() =~= sn.children.subrange(0, i as int));
        assert(decreases_to!(style_node => style_node.children@[i as int]));
        let ghost before = box_trees(root.children@);
        match child.display() {
            Display::Block => {
                let b = build_box(child);
                root.children.push(b);
                assert(box_trees(root.children@) =~= before.push(b.tree()));
            },
            Display::Inline => {
                let b = build_box(child);
                root.push_inline(b);
            },
            Display::Hidden => {},
        }
        i = i + 1;
    }
    assert(sn.children.subrange(0, sn.children.len() as int) =~= sn.children);
    assert(root.tree().children =~= box_trees(root.children@));
    root
}

/// The box tree of a styled tree: fails where the root's display is `none`.
pub fn build_layout_tree<'a>(style_node: &'a StyledNode<'a>) -> (r: Result<LayoutBox<'a>, LayoutError>)
    ensures
        display_of(style_node.tree().values) == Display::Hidden <==> r is Err,
        r matches Ok(b) ==> b.tree() == build_spec(style_node.tree()),
{
    match style_node.display() {
        Display::Hidden => Err(LayoutError::RootDisplayNone),
        _ => Ok(build_box(style_node)),
    }
}

// ---- laws of the box tree

/// Under a block box, inline children in the order inline, block, inline give
/// exactly three boxes: an anonymous block around the first, the block's box, and an
/// anonymous block around the last.
pub proof fn lemma_mixed_children(sn: StyledTree, cs: Seq<StyledTree>)
    requires
        cs.len() == 3,
        display_of(cs[0].values) == Display::Inline,
        display_of(cs[1].values) == Display::Block,
        display_of(cs[2].values) == Display::Inline,
    ensures
        box_children(BoxKind::Block(sn), cs) == seq![
            BoxTree { kind: BoxKind::Anonymous, children: seq![build_spec(cs[0])] },
            build_spec(cs[1]),
            BoxTree { kind: BoxKind::Anonymous, children: seq![build_spec(cs[2])] },
        ],
{
    let k = BoxKind::Block(sn);
    assert(cs.drop_last().drop_last().drop_last() =~= Seq::<StyledTree>::empty());
    let c01 = cs.drop_last().drop_last();
    assert(c01.len() == 1 && c01.last() == cs[0]);
    assert(box_children(k, c01.drop_last()) =~= Seq::<BoxTree>::empty());
    assert(cs.drop_last().last() == cs[1]);
    let a0 = box_children(k, c01);
    assert(a0 =~= seq![BoxTree { kind: BoxKind::Anonymous, children: seq![build_spec(cs[0])] }]);
    let a1 = box_children(k, cs.drop_last());
    assert(a1 =~= a0.push(build_spec(cs[1])));
    assert(box_children(k, cs) =~= seq![
        BoxTree { kind: BoxKind::Anonymous, children: seq![build_spec(cs[0])] },
        build_spec(cs[1]),
        BoxTree { kind: BoxKind::Anonymous, children: seq![build_spec(cs[2])] },
    ]);
}

/// The children of a block box are never inline boxes: each is a block box or an
/// anonymous block, and an anonymous block holds inline boxes only.
pub proof fn lemma_block_children_wrapped(sn: StyledTree, cs: Seq<StyledTree>)
    ensures
        forall|i: int|
            0 <= i < box_children(BoxKind::Block(sn), cs).len() ==> !((#[trigger] box_children(
                BoxKind::Block(sn),
                cs,
            )[i]).kind is Inline),
        forall|i: int, j: int|
            0 <= i < box_children(BoxKind::Block(sn), cs).len() && box_children(BoxKind::Block(sn), cs)[i].kind is Anonymous
                && 0 <= j < box_children(BoxKind::Block(sn), cs)[i].children.len()
                ==> (#[trigger] box_children(BoxKind::Block(sn), cs)[i].children[j]).kind is Inline,
    decreases cs.len(),
{
    if cs.len() > 0 {
        lemma_block_children_wrapped(sn, cs.drop_last());
        let c = cs.last();
        let acc = box_children(BoxKind::Block(sn), cs.drop_last());
        let r = box_children(BoxKind::Block(sn), cs);
        if display_of(c.values) == Display::Inline {
            assert(build_spec(c).kind is Inline);
            assert forall|i: int, j: int|
                0 <= i < r.len() && r[i].kind is Anonymous && 0 <= j < r[i].children.len() implies (#[trigger] r[i].children[j]).kind is Inline by {
                if i < acc.len() && !(acc.len() > 0 && acc.last().kind is Anonymous && i == acc.len() - 1) {
                    assert(r[i] == acc[i]);
                } else if acc.len() > 0 && acc.last().kind is Anonymous && i == acc.len() - 1 {
                    if j < acc[i].children.len() {
                        assert(r[i].children[j] == acc[i].children[j]);
                    }
                }
            }
        }
    }
}

/// A child whose display is `none` adds no box: the boxes are those of the other
/// children, as if the child were not there.
pub proof fn lemma_hidden_child_removed(kind: BoxKind, cs: Seq<StyledTree>, i: int)
    requires
        0 <= i < cs.len(),
        display_of(cs[i].values) == Display::Hidden,
    ensures
        box_children(kind, cs) == box_children(kind, cs.remove(i)),
    decreases cs.len(),
{
    if i == cs.len() - 1 {
        assert(cs.remove(i) =~= cs.drop_last());
    } else {
        lemma_hidden_child_removed(kind, cs.drop_last(), i);
        assert(cs.remove(i).drop_last() =~= cs.drop_last().remove(i));
        assert(cs.remove(i).last() == cs.last());
    }
}

/// The box tree's rule at `b` and every box below it: a block box has no inline
/// box as a direct child and no two anonymous blocks side by side, and an anonymous
/// block holds inline boxes only.
pub open spec fn box_ok(b: BoxTree) -> bool
    decreases b,
{
    &&& (b.kind is Block ==> forall|i: int|
        0 <= i < b.children.len() ==> !((#[trigger] b.children[i]).kind is Inline))
    &&& (b.kind is Block ==> forall|i: int|
        0 <= i < b.children.len() - 1 ==> !((#[trigger] b.children[i]).kind is Anonymous
            && b.children[i + 1].kind is Anonymous))
    &&& (b.kind is Anonymous ==> forall|i: int|
        0 <= i < b.children.len() ==> (#[trigger] b.children[i]).kind is Inline)
    &&& forall|i: int| 0 <= i < b.children.len() ==> box_ok(#[trigger] b.children[i])
}

/// What `box_children` gives a box of kind `kind`, as `box_ok` asks of its children.
pub open spec fn children_ok(kind: BoxKind, bs: Seq<BoxTree>) -> bool {
    &&& (kind is Block ==> forall|i: int| 0 <= i < bs.len() ==> !((#[trigger] bs[i]).kind is Inline))
    &&& (kind is Block ==> forall|i: int|
        0 <= i < bs.len() - 1 ==> !((#[trigger] bs[i]).kind is Anonymous && bs[i + 1].kind is Anonymous))
    &&& forall|i: int| 0 <= i < bs.len() ==> box_ok(#[trigger] bs[i])
}

proof fn lemma_box_children_ok(kind: BoxKind, cs: Seq<StyledTree>)
    ensures
        children_ok(kind, box_children(kind, cs)),
    decreases cs,
{
    if cs.len() > 0 {
        let c = cs.last();
        lemma_box_children_ok(kind, cs.drop_last());
        lemma_build_ok(c);
        let acc = box_children(kind, cs.drop_last());
        let b = build_spec(c);
        let r = box_children(kind, cs);
        if display_of(c.values) == Display::Block {
            assert(r == acc.push(b));
            assert(forall|i: int| 0 <= i < acc.len() ==> r[i] == acc[i]);
        } else if display_of(c.values) == Display::Inline {
            assert(b.kind is Inline);
            if kind is Block && acc.len() > 0 && acc.last().kind is Anonymous {
                let n = acc.len() - 1;
                let a = BoxTree { kind: BoxKind::Anonymous, children: acc.last().children.push(b) };
                assert(r == acc.update(n, a));
                assert(box_ok(acc[n]));
                assert(forall|j: int| 0 <= j < acc[n].children.len() ==> a.children[j] == acc[n].children[j]);
                assert(box_ok(a));
                assert(forall|i: int| 0 <= i < n ==> r[i] == acc[i]);
            } else if kind is Block {
                let a = BoxTree { kind: BoxKind::Anonymous, children: seq![b] };
                assert(box_ok(a));
                assert(r == acc.push(a));
                assert(forall|i: int| 0 <= i < acc.len() ==> r[i] == acc[i]);
            } else {
                assert(r == acc.push(b));
                assert(forall|i: int| 0 <= i < acc.len() ==> r[i] == acc[i]);
            }
        }
    }
}

proof fn lemma_build_ok(sn: StyledTree)
    ensures
        box_ok(build_spec(sn)),
    decreases sn,
{
    let b = build_spec(sn);
    lemma_box_children_ok(b.kind, sn.children);
}

/// Every box tree that is built keeps the block/inline rule at every depth: no block
/// box has an inline box beside block content without an anonymous block around it.
pub proof fn lemma_box_tree_ok(style_node: StyledTree)
    ensures
        box_ok(build_spec(style_node)),
{
    lemma_build_ok(style_node);
}

// ---- removing a hidden node at any depth

/// A box without the styled subtree it refers to: its kind, with the node and the
/// properties of the styled node behind it.
pub enum ShapeKind {
    Block(NodeKind, Map<Seq<char>, ValueModel>),
    Inline(NodeKind, Map<Seq<char>, ValueModel>),
    Anonymous,
}

/// A box tree, as its shape.
pub struct BoxShape {
    pub kind: ShapeKind,
    pub children: Seq<BoxShape>,
}

pub open spec fn shape(b: BoxTree) -> BoxShape
    decreases b,
{
    BoxShape {
        kind: match b.kind {
            BoxKind::Block(sn) => ShapeKind::Block(sn.node.kind, sn.values),
            BoxKind::Inline(sn) => ShapeKind::Inline(sn.node.kind, sn.values),
            BoxKind::Anonymous => ShapeKind::Anonymous,
        },
        children: Seq::new(
            b.children.len(),
            |i: int|
                if 0 <= i < b.children.len() {
                    shape(b.children[i])
                } else {
                    BoxShape { kind: ShapeKind::Anonymous, children: Seq::empty() }
                },
        ),
    }
}

pub open spec fn shapes(bs: Seq<BoxTree>) -> Seq<BoxShape> {
    Seq::new(bs.len(), |i: int| shape(bs[i]))
}

/// Whether `path` leads from `sn` through child indices to a node below it.
pub open spec fn valid_path(sn: StyledTree, path: Seq<nat>) -> bool
    decreases path.len(),
{
    &&& path.len() >= 1
    &&& path[0] < sn.children.len()
    &&& (path.len() > 1 ==> valid_path(sn.children[path[0] as int], path.drop_first()))
}

/// The node that `path` leads to.
pub open spec fn node_at(sn: StyledTree, path: Seq<nat>) -> StyledTree
    decreases path.len(),
{
    if path.len() <= 1 {
        sn.children[path[0] as int]
    } else {
        node_at(sn.children[path[0] as int], path.drop_first())
    }
}

/// `sn` with the node that `path` leads to taken out of its parent's children.
pub open spec fn remove_at(sn: StyledTree, path: Seq<nat>) -> StyledTree
    decreases path.len(),
{
    if path.len() <= 1 {
        StyledTree { children: sn.children.remove(path[0] as int), ..sn }
    } else {
        StyledTree {
            children: sn.children.update(
                path[0] as int,
                remove_at(sn.children[path[0] as int], path.drop_first()),
            ),
            ..sn
        }
    }
}

proof fn lemma_kind_only_block_matters(k1: BoxKind, k2: BoxKind, cs: Seq<StyledTree>)
    requires
        k1 is Block <==> k2 is Block,
    ensures
        box_children(k1, cs) == box_children(k2, cs),
    decreases cs.len(),
{
    if cs.len() > 0 {
        lemma_kind_only_block_matters(k1, k2, cs.drop_last());
    }
}

proof fn lemma_shape_children(b: BoxTree)
    ensures
        shape(b).children == shapes(b.children),
{
    assert(shape(b).children =~= shapes(b.children));
}

proof fn lemma_shapes_push(bs: Seq<BoxTree>, x: BoxTree)
    ensures
        shapes(bs.push(x)) == shapes(bs).push(shape(x)),
{
    assert(shapes(bs.push(x)) =~= shapes(bs).push(shape(x)));
}

/// Shapes of `add_inline` depend only on the shapes of what it is given.
proof fn lemma_add_inline_shape(kind: BoxKind, a1: Seq<BoxTree>, a2: Seq<BoxTree>, b1: BoxTree, b2: BoxTree)
    requires
        shapes(a1) == shapes(a2),
        shape(b1) == shape(b2),
    ensures
        shapes(add_inline(kind, a1, b1)) == shapes(add_inline(kind, a2, b2)),
{
    assert(a1.len() == shapes(a1).len());
    assert(a2.len() == shapes(a2).len());
    if kind is Block && a1.len() > 0 {
        let n = a1.len() - 1;
        assert(shapes(a1)[n] == shape(a1[n]) && shapes(a2)[n] == shape(a2[n]));
        assert(a1[n].kind is Anonymous <==> a2[n].kind is Anonymous);
    }
    if kind is Block && a1.len() > 0 && a1.last().kind is Anonymous {
        let n = a1.len() - 1;
        let x1 = BoxTree { kind: BoxKind::Anonymous, children: a1.last().children.push(b1) };
        let x2 = BoxTree { kind: BoxKind::Anonymous, children: a2.last().children.push(b2) };
        lemma_shape_children(a1.last());
        lemma_shape_children(a2.last());
        lemma_shapes_push(a1.last().children, b1);
        lemma_shapes_push(a2.last().children, b2);
        lemma_shape_children(x1);
        lemma_shape_children(x2);
        assert(shape(x1) == shape(x2));
        assert(shapes(a1.update(n, x1)) =~= shapes(a2.update(n, x2))) by {
            assert forall|i: int| 0 <= i < a1.len() implies shapes(a1.update(n, x1))[i] == shapes(a2.update(n, x2))[i] by {
                assert(shapes(a1.update(n, x1))[i] == shape(a1.update(n, x1)[i]));
                assert(shapes(a2.update(n, x2))[i] == shape(a2.update(n, x2)[i]));
                if i != n {
                    assert(shapes(a1)[i] == shape(a1[i]));
                    assert(shapes(a2)[i] == shape(a2[i]));
                    assert(shapes(a1)[i] == shapes(a2)[i]);
                }
            }
        }
    } else if kind is Block {
        let x = BoxTree { kind: BoxKind::Anonymous, children: seq![b1] };
        let y = BoxTree { kind: BoxKind::Anonymous, children: seq![b2] };
        lemma_shape_children(x);
        lemma_shape_children(y);
        assert(shapes(seq![b1]) =~= shapes(seq![b2]));
        lemma_shapes_push(a1, x);
        lemma_shapes_push(a2, y);
    } else {
        lemma_shapes_push(a1, b1);
        lemma_shapes_push(a2, b2);
    }
}

/// Replacing a child by one of the same display and the same box shape keeps the
/// shapes of the child boxes.
proof fn lemma_replace_child(kind: BoxKind, cs: Seq<StyledTree>, i: int, c: StyledTree)
    requires
        0 <= i < cs.len(),
        display_of(c.values) == display_of(cs[i].values),
        shape(build_spec(c)) == shape(build_spec(cs[i])),
    ensures
        shapes(box_children(kind, cs.update(i, c))) == shapes(box_children(kind, cs)),
    decreases cs.len(),
{
    let t = cs.update(i, c);
    let n = cs.len() - 1;
    if i == n {
        assert(t.drop_last() =~= cs.drop_last());
        let acc = box_children(kind, cs.drop_last());
        if display_of(c.values) == Display::Block {
            lemma_shapes_push(acc, build_spec(c));
            lemma_shapes_push(acc, build_spec(cs[i]));
        } else if display_of(c.values) == Display::Inline {
            lemma_add_inline_shape(kind, acc, acc, build_spec(c), build_spec(cs[i]));
        }
    } else {
        assert(t.drop_last() =~= cs.drop_last().update(i, c));
        lemma_replace_child(kind, cs.drop_last(), i, c);
        let a1 = box_children(kind, t.drop_last());
        let a2 = box_children(kind, cs.drop_last());
        let l = cs.last();
        assert(t.last() == l);
        if display_of(l.values) == Display::Block {
            lemma_shapes_push(a1, build_spec(l));
            lemma_shapes_push(a2, build_spec(l));
        } else if display_of(l.values) == Display::Inline {
            lemma_add_inline_shape(kind, a1, a2, build_spec(l), build_spec(l));
        }
    }
}

/// A node whose display is `none`, at any depth below the root, adds nothing to the
/// box tree: taking it and its subtree out of its parent leaves a box tree of the
/// same shape.
pub proof fn lemma_hidden_node_removed(sn: StyledTree, path: Seq<nat>)
    requires
        valid_path(sn, path),
        display_of(node_at(sn, path).values) == Display::Hidden,
    ensures
        shape(build_spec(remove_at(sn, path))) == shape(build_spec(sn)),
    decreases path.len(),
{
    let r = remove_at(sn, path);
    let b1 = build_spec(r);
    let b2 = build_spec(sn);
    let i = path[0] as int;
    lemma_kind_only_block_matters(b1.kind, b2.kind, r.children);
    if path.len() <= 1 {
        lemma_hidden_child_removed(b2.kind, sn.children, i);
    } else {
        let rest = path.drop_first();
        lemma_hidden_node_removed(sn.children[i], rest);
        lemma_replace_child(b2.kind, sn.children, i, remove_at(sn.children[i], rest));
    }
    lemma_shape_children(b1);
    lemma_shape_children(b2);
}

} // verus!
