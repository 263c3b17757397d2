//! Rotations, and the step that puts one fork of a tree level again.
//!
//! Each function rewires a handful of links in the arena and says which
//! outline the nodes form afterwards. A rotation returns the slot that now
//! stands on top; its caller points the parent's child link at it.

use vstd::prelude::*;
use crate::links::{
    Node, joined, linked, same_data, same_outside, lemma_joined_housed, lemma_linked_frame,
    lemma_linked_reparent,
};
use crate::shape::{Shape, lemma_shape_fits, lemma_turn_shape};

verus! {

/// The four ways a fork can lean, named after where the surplus hangs.
#[derive(Clone, Copy, Debug, PartialEq, Eq, Structural)]
pub enum LinkRotation {
    LLCase,
    RRCase,
    LRCase,
    RLCase,
}

/// The outline that a rotation of `case` makes of `t`.
pub open spec fn turned(t: Shape, case: LinkRotation) -> Shape {
    match case {
        LinkRotation::RRCase => t.turn_left(),
        LinkRotation::LLCase => t.turn_right(),
        LinkRotation::RLCase => t.turn_right_left(),
        LinkRotation::LRCase => t.turn_left_right(),
    }
}

/// Whether `t` has the forks that a rotation of `case` moves.
pub open spec fn turnable(t: Shape, case: LinkRotation) -> bool {
    match case {
        LinkRotation::RRCase => t.right() is Fork,
        LinkRotation::LLCase => t.left() is Fork,
        LinkRotation::RLCase => t.right().left() is Fork,
        LinkRotation::LRCase => t.left().right() is Fork,
    }
}

/// The height that the node below `link` holds; zero below an empty link.
pub(crate) fn height_of(nodes: &Vec<Node>, link: Option<usize>) -> (height: usize)
    requires
        link matches Some(i) ==> i < nodes.len(),
    ensures
        height == match link {
            Some(i) => nodes@[i as int].height,
            None => 0,
        },
{
    match link {
        Some(i) => nodes[i].height,
        None => 0,
    }
}

/// Sets the height that the top node of `t` holds from those of its sides.
pub(crate) fn fix_height(
    nodes: &mut Vec<Node>,
    top: usize,
    Ghost(t): Ghost<Shape>,
    Ghost(parent): Ghost<Option<usize>>,
)
    requires
        joined(old(nodes)@, t, parent),
        t.root() == Some(top),
        t.distinct(),
    ensures
        linked(final(nodes)@, t, parent),
        same_data(old(nodes)@, final(nodes)@),
        same_outside(old(nodes)@, final(nodes)@, set![top]),
        final(nodes)@.len() == old(nodes)@.len(),
{
    proof {
        lemma_joined_housed(nodes@, t, parent);
        lemma_shape_fits(t, nodes@.len());
        assert(nodes@.len() == nodes.len());
        assert(linked(nodes@, t.left(), Some(top)));
        assert(linked(nodes@, t.right(), Some(top)));
    }
    let left = height_of(nodes, nodes[top].left);
    let right = height_of(nodes, nodes[top].right);
    assert(left == t.left().height() && right == t.right().height());
    let height: usize = if left >= right {
        left + 1
    } else {
        right + 1
    };
    nodes[top].height = height;
    proof {
        assert(nodes@ =~= old(nodes)@.update(top as int, nodes@[top as int]));
        lemma_linked_frame(old(nodes)@, nodes@, t.left(), Some(top));
        lemma_linked_frame(old(nodes)@, nodes@, t.right(), Some(top));
    }
}

/// Right height less left height at the top of `t`, for sides at most two apart.
pub(crate) fn balance_factor(
    nodes: &Vec<Node>,
    top: usize,
    Ghost(t): Ghost<Shape>,
    Ghost(parent): Ghost<Option<usize>>,
) -> (factor: i8)
    requires
        joined(nodes@, t, parent),
        t.root() == Some(top),
        t.level(2),
    ensures
        factor == t.right().height() - t.left().height(),
{
    proof {
        lemma_joined_housed(nodes@, t, parent);
    }
    let left = height_of(nodes, nodes[top].left);
    let right = height_of(nodes, nodes[top].right);
    if right >= left {
        let above: usize = right - left;
        if above == 0 {
            0
        } else if above == 1 {
            1
        } else {
            2
        }
    } else {
        let below: usize = left - right;
        if below == 1 {
            -1
        } else {
            -2
        }
    }
}

/// Left rotation round `top`: its right child rises into its place.
pub(crate) fn rotate_left(
    nodes: &mut Vec<Node>,
    top: usize,
    Ghost(t): Ghost<Shape>,
    Ghost(parent): Ghost<Option<usize>>,
) -> (riser: usize)
    requires
        joined(old(nodes)@, t, parent),
        t.root() == Some(top),
        t.right() is Fork,
        t.distinct(),
    ensures
        linked(final(nodes)@, t.turn_left(), parent),
        t.turn_left().root() == Some(riser),
        same_data(old(nodes)@, final(nodes)@),
        same_outside(old(nodes)@, final(nodes)@, t.slots()),
        final(nodes)@.len() == old(nodes)@.len(),
{
    let ghost a = t.left();
    let ghost r = t.right();
    let ghost b = r.left();
    let ghost c = r.right();
    proof {
        lemma_joined_housed(nodes@, t, parent);
        lemma_turn_shape(a, top, b, r->at, c);
        assert(t == Shape::fork(a, top, Shape::fork(b, r->at, c)));
        reveal_with_fuel(Shape::distinct, 3);
        reveal_with_fuel(Shape::slots, 3);
        assert(linked(nodes@, a, Some(top)));
        assert(linked(nodes@, r, Some(top)));
        assert(linked(nodes@, b, Some(r->at)));
        assert(linked(nodes@, c, Some(r->at)));
    }
    let riser = nodes[top].right.unwrap();
    let inner = nodes[riser].left;
    let above = nodes[top].parent;
    nodes[top].right = inner;
    if let Some(i) = inner {
        nodes[i].parent = Some(top);
    }
    nodes[riser].left = Some(top);
    nodes[riser].parent = above;
    nodes[top].parent = Some(riser);
    proof {
        lemma_linked_frame(old(nodes)@, nodes@, a, Some(top));
        lemma_linked_reparent(old(nodes)@, nodes@, b, Some(riser), Some(top));
        lemma_linked_frame(old(nodes)@, nodes@, c, Some(riser));
    }
    let ghost mid = nodes@;
    fix_height(nodes, top, Ghost(Shape::fork(a, top, b)), Ghost(Some(riser)));
    proof {
        lemma_linked_frame(mid, nodes@, c, Some(riser));
    }
    fix_height(nodes, riser, Ghost(t.turn_left()), Ghost(parent));
    riser
}

/// Right rotation round `top`: its left child rises into its place.
pub(crate) fn rotate_right(
    nodes: &mut Vec<Node>,
    top: usize,
    Ghost(t): Ghost<Shape>,
    Ghost(parent): Ghost<Option<usize>>,
) -> (riser: usize)
    requires
        joined(old(nodes)@, t, parent),
        t.root() == Some(top),
        t.left() is Fork,
        t.distinct(),
    ensures
        linked(final(nodes)@, t.turn_right(), parent),
        t.turn_right().root() == Some(riser),
        same_data(old(nodes)@, final(nodes)@),
        same_outside(old(nodes)@, final(nodes)@, t.slots()),
        final(nodes)@.len() == old(nodes)@.len(),
{
    let ghost c = t.right();
    let ghost l = t.left();
    let ghost a = l.left();
    let ghost b = l.right();
    proof {
        lemma_joined_housed(nodes@, t, parent);
        lemma_turn_shape(a, l->at, b, top, c);
        assert(t == Shape::fork(Shape::fork(a, l->at, b), top, c));
        reveal_with_fuel(Shape::distinct, 3);
        reveal_with_fuel(Shape::slots, 3);
        assert(linked(nodes@, c, Some(top)));
        assert(linked(nodes@, l, Some(top)));
        assert(linked(nodes@, a, Some(l->at)));
        assert(linked(nodes@, b, Some(l->at)));
    }
    let riser = nodes[top].left.unwrap();
    let inner = nodes[riser].right;
    let above = nodes[top].parent;
    nodes[top].left = inner;
    if let Some(i) = inner {
        nodes[i].parent = Some(top);
    }
    nodes[riser].right = Some(top);
    nodes[riser].parent = above;
    nodes[top].parent = Some(riser);
    proof {
        lemma_linked_frame(old(nodes)@, nodes@, c, Some(top));
        lemma_linked_reparent(old(nodes)@, nodes@, b, Some(riser), Some(top));
        lemma_linked_frame(old(nodes)@, nodes@, a, Some(riser));
    }
    let ghost mid = nodes@;
    fix_height(nodes, top, Ghost(Shape::fork(b, top, c)), Ghost(Some(riser)));
    proof {
        lemma_linked_frame(mid, nodes@, a, Some(riser));
    }
    fix_height(nodes, riser, Ghost(t.turn_right()), Ghost(parent));
    riser
}

/// Rotates the fork at `top` as `case` says and returns the slot that
/// stands on top afterwards. A double rotation first turns the child on the
/// heavy side the other way, then the fork itself.
pub(crate) fn rotate(
    nodes: &mut Vec<Node>,
    top: usize,
    case: LinkRotation,
    Ghost(t): Ghost<Shape>,
    Ghost(parent): Ghost<Option<usize>>,
) -> (riser: usize)
    requires
        joined(old(nodes)@, t, parent),
        t.root() == Some(top),
        turnable(t, case),
        t.distinct(),
    ensures
        linked(final(nodes)@, turned(t, case), parent),
        turned(t, case).root() == Some(riser),
        same_data(old(nodes)@, final(nodes)@),
        same_outside(old(nodes)@, final(nodes)@, t.slots()),
        final(nodes)@.len() == old(nodes)@.len(),
{
    proof {
        lemma_joined_housed(nodes@, t, parent);
        reveal_with_fuel(Shape::distinct, 2);
        reveal_with_fuel(Shape::slots, 2);
    }
    match case {
        LinkRotation::RRCase => rotate_left(nodes, top, Ghost(t), Ghost(parent)),
        LinkRotation::LLCase => rotate_right(nodes, top, Ghost(t), Ghost(parent)),
        LinkRotation::RLCase => {
            let ghost a = t.left();
            let ghost r = t.right();
            let child = nodes[top].right.unwrap();
            let lowered = rotate_right(nodes, child, Ghost(r), Ghost(Some(top)));
            let ghost mid = nodes@;
            nodes[top].right = Some(lowered);
            let ghost between = Shape::fork(a, top, r.turn_right());
            proof {
                let m = r.left();
                lemma_turn_shape(m.left(), m->at, m.right(), r->at, r.right());
                assert(r == Shape::fork(Shape::fork(m.left(), m->at, m.right()), r->at, r.right()));
                lemma_linked_frame(old(nodes)@, nodes@, a, Some(top));
                lemma_linked_frame(mid, nodes@, r.turn_right(), Some(top));
            }
            rotate_left(nodes, top, Ghost(between), Ghost(parent))
        },
        LinkRotation::LRCase => {
            let ghost c = t.right();
            let ghost l = t.left();
            let child = nodes[top].left.unwrap();
            let raised = rotate_left(nodes, child, Ghost(l), Ghost(Some(top)));
            let ghost mid = nodes@;
            nodes[top].left = Some(raised);
            let ghost between = Shape::fork(l.turn_left(), top, c);
            proof {
                let m = l.right();
                lemma_turn_shape(l.left(), l->at, m.left(), m->at, m.right());
                assert(l == Shape::fork(l.left(), l->at, Shape::fork(m.left(), m->at, m.right())));
                lemma_linked_frame(old(nodes)@, nodes@, c, Some(top));
                lemma_linked_frame(mid, nodes@, l.turn_left(), Some(top));
            }
            rotate_right(nodes, top, Ghost(between), Ghost(parent))
        },
    }
}

/// Puts the fork at `top` level again: where one side is higher than the
/// other by more than one, the rotation that the higher side calls for;
/// else only the height held at `top` is set. Returns the slot that stands
/// on top afterwards.
pub(crate) fn balance(
    nodes: &mut Vec<Node>,
    top: usize,
    Ghost(t): Ghost<Shape>,
    Ghost(parent): Ghost<Option<usize>>,
) -> (riser: usize)
    requires
        joined(old(nodes)@, t, parent),
        t.root() == Some(top),
        t.distinct(),
        t.left().balanced(),
        t.right().balanced(),
        t.level(2),
    ensures
        linked(final(nodes)@, t.mend(), parent),
        t.mend().root() == Some(riser),
        same_data(old(nodes)@, final(nodes)@),
        same_outside(old(nodes)@, final(nodes)@, t.slots()),
        final(nodes)@.len() == old(nodes)@.len(),
{
    proof {
        lemma_joined_housed(nodes@, t, parent);
        assert(linked(nodes@, t.left(), Some(top)));
        assert(linked(nodes@, t.right(), Some(top)));
    }
    let factor = balance_factor(nodes, top, Ghost(t), Ghost(parent));
    if factor > 1 {
        let child = nodes[top].right.unwrap();
        let lean = balance_factor(nodes, child, Ghost(t.right()), Ghost(Some(top)));
        if lean < 0 {
            rotate(nodes, top, LinkRotation::RLCase, Ghost(t), Ghost(parent))
        } else {
            rotate(nodes, top, LinkRotation::RRCase, Ghost(t), Ghost(parent))
        }
    } else if factor < -1 {
        let child = nodes[top].left.unwrap();
        let lean = balance_factor(nodes, child, Ghost(t.left()), Ghost(Some(top)));
        if lean > 0 {
            rotate(nodes, top, LinkRotation::LRCase, Ghost(t), Ghost(parent))
        } else {
            rotate(nodes, top, LinkRotation::LLCase, Ghost(t), Ghost(parent))
        }
    } else {
        fix_height(nodes, top, Ghost(t), Ghost(parent));
        top
    }
}

} // verus!
