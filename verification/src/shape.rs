//! The ghost outline of a tree held in an arena: which slot stands where.
//!
//! A tree's nodes live in a vector and point at each other by index. The
//! outline records, as plain data, the binary tree those indices form, so
//! that the invariants of the arena can be stated by recursion over it.

use vstd::prelude::*;

verus! {

/// A binary tree of arena slots.
pub enum Shape {
    Leaf,
    Fork { left: Box<Shape>, at: usize, right: Box<Shape> },
}

/// The larger of two naturals.
pub open spec fn max_nat(a: nat, b: nat) -> nat {
    if a >= b {
        a
    } else {
        b
    }
}

impl Shape {
    /// The outline with `at` on top of `left` and `right`.
    pub open spec fn fork(left: Shape, at: usize, right: Shape) -> Shape {
        Shape::Fork { left: Box::new(left), at, right: Box::new(right) }
    }

    /// The slot on top, if the outline is not empty.
    pub open spec fn root(self) -> Option<usize> {
        match self {
            Shape::Leaf => None,
            Shape::Fork { at, .. } => Some(at),
        }
    }

    /// Every slot of the outline.
    pub open spec fn slots(self) -> Set<usize>
        decreases self,
    {
        match self {
            Shape::Leaf => Set::empty(),
            Shape::Fork { left, at, right } => left.slots().union(right.slots()).insert(at),
        }
    }

    /// The slots from left to right.
    pub open spec fn inorder(self) -> Seq<usize>
        decreases self,
    {
        match self {
            Shape::Leaf => Seq::empty(),
            Shape::Fork { left, at, right } => left.inorder().push(at) + right.inorder(),
        }
    }

    /// The number of slots on the longest way down.
    pub open spec fn height(self) -> nat
        decreases self,
    {
        match self {
            Shape::Leaf => 0,
            Shape::Fork { left, right, .. } => 1 + max_nat(left.height(), right.height()),
        }
    }

    /// The number of slots.
    pub open spec fn size(self) -> nat
        decreases self,
    {
        match self {
            Shape::Leaf => 0,
            Shape::Fork { left, right, .. } => 1 + left.size() + right.size(),
        }
    }

    /// Whether the two sides of a fork differ in height by at most `slack`.
    pub open spec fn level(self, slack: nat) -> bool {
        match self {
            Shape::Leaf => true,
            Shape::Fork { left, right, .. } => left.height() <= right.height() + slack
                && right.height() <= left.height() + slack,
        }
    }

    /// Whether at every fork the two sides differ in height by at most one.
    pub open spec fn balanced(self) -> bool
        decreases self,
    {
        match self {
            Shape::Leaf => true,
            Shape::Fork { left, right, .. } => self.level(1) && left.balanced()
                && right.balanced(),
        }
    }

    /// Whether no slot stands at two places.
    pub open spec fn distinct(self) -> bool
        decreases self,
    {
        match self {
            Shape::Leaf => true,
            Shape::Fork { left, at, right } => {
                &&& left.distinct()
                &&& right.distinct()
                &&& !left.slots().contains(at)
                &&& !right.slots().contains(at)
                &&& left.slots().disjoint(right.slots())
            },
        }
    }

    /// The part of the outline that hangs at `slot`, or `Leaf` where `slot` is not in it.
    pub open spec fn below(self, slot: usize) -> Shape
        decreases self,
    {
        match self {
            Shape::Leaf => Shape::Leaf,
            Shape::Fork { left, at, right } => if at == slot {
                self
            } else if left.slots().contains(slot) {
                left.below(slot)
            } else {
                right.below(slot)
            },
        }
    }

    /// Where in `inorder` the part that hangs at `slot` begins.
    pub open spec fn offset(self, slot: usize) -> int
        decreases self,
    {
        match self {
            Shape::Leaf => 0,
            Shape::Fork { left, at, right } => if at == slot {
                0
            } else if left.slots().contains(slot) {
                left.offset(slot)
            } else {
                left.size() + 1 + right.offset(slot)
            },
        }
    }

    /// How many forks lie above `slot`.
    pub open spec fn depth(self, slot: usize) -> nat
        decreases self,
    {
        match self {
            Shape::Leaf => 0,
            Shape::Fork { left, at, right } => if at == slot {
                0
            } else if left.slots().contains(slot) {
                1 + left.depth(slot)
            } else {
                1 + right.depth(slot)
            },
        }
    }

    /// What hangs on the left of the top slot.
    pub open spec fn left(self) -> Shape {
        match self {
            Shape::Leaf => Shape::Leaf,
            Shape::Fork { left, .. } => *left,
        }
    }

    /// What hangs on the right of the top slot.
    pub open spec fn right(self) -> Shape {
        match self {
            Shape::Leaf => Shape::Leaf,
            Shape::Fork { right, .. } => *right,
        }
    }

    /// The outline after a left rotation round its top: the right child
    /// rises, and the old top takes the riser's left side as its right.
    pub open spec fn turn_left(self) -> Shape {
        match self {
            Shape::Leaf => self,
            Shape::Fork { left, at, right } => match *right {
                Shape::Leaf => self,
                Shape::Fork { left: inner, at: riser, right: outer } => Shape::fork(
                    Shape::fork(*left, at, *inner),
                    riser,
                    *outer,
                ),
            },
        }
    }

    /// The outline after a right rotation round its top: the left child
    /// rises, and the old top takes the riser's right side as its left.
    pub open spec fn turn_right(self) -> Shape {
        match self {
            Shape::Leaf => self,
            Shape::Fork { left, at, right } => match *left {
                Shape::Leaf => self,
                Shape::Fork { left: outer, at: riser, right: inner } => Shape::fork(
                    *outer,
                    riser,
                    Shape::fork(*inner, at, *right),
                ),
            },
        }
    }

    /// The outline with its right side turned right, then itself turned left.
    pub open spec fn turn_right_left(self) -> Shape {
        match self {
            Shape::Leaf => self,
            Shape::Fork { left, at, right } => Shape::fork(*left, at, right.turn_right()).turn_left(),
        }
    }

    /// The outline with its left side turned left, then itself turned right.
    pub open spec fn turn_left_right(self) -> Shape {
        match self {
            Shape::Leaf => self,
            Shape::Fork { left, at, right } => Shape::fork(left.turn_left(), at, *right).turn_right(),
        }
    }

    /// Whether the right side is higher than the left by more than one.
    pub open spec fn right_heavy(self) -> bool {
        self.right().height() > self.left().height() + 1
    }

    /// Whether the left side is higher than the right by more than one.
    pub open spec fn left_heavy(self) -> bool {
        self.left().height() > self.right().height() + 1
    }

    /// The outline put level again at its top: where one side is higher than
    /// the other by more than one, the single or double rotation that the
    /// higher side calls for; else the outline itself.
    pub open spec fn mend(self) -> Shape {
        if self.right_heavy() {
            if self.right().left().height() > self.right().right().height() {
                self.turn_right_left()
            } else {
                self.turn_left()
            }
        } else if self.left_heavy() {
            if self.left().right().height() > self.left().left().height() {
                self.turn_left_right()
            } else {
                self.turn_right()
            }
        } else {
            self
        }
    }
}

/// A rotation keeps the slots of an outline and their order from left to
/// right: `x` over `a` and (`y` over `b` and `c`) against `y` over (`x` over
/// `a` and `b`) and `c`.
pub proof fn lemma_turn_shape(a: Shape, x: usize, b: Shape, y: usize, c: Shape)
    ensures
        Shape::fork(a, x, Shape::fork(b, y, c)).turn_left() == Shape::fork(Shape::fork(a, x, b), y, c),
        Shape::fork(Shape::fork(a, x, b), y, c).turn_right() == Shape::fork(a, x, Shape::fork(b, y, c)),
        Shape::fork(a, x, Shape::fork(b, y, c)).slots() == Shape::fork(Shape::fork(a, x, b), y, c).slots(),
        Shape::fork(a, x, Shape::fork(b, y, c)).distinct() == Shape::fork(
            Shape::fork(a, x, b),
            y,
            c,
        ).distinct(),
        Shape::fork(a, x, Shape::fork(b, y, c)).size() == Shape::fork(Shape::fork(a, x, b), y, c).size(),
        Shape::fork(a, x, Shape::fork(b, y, c)).inorder() == Shape::fork(
            Shape::fork(a, x, b),
            y,
            c,
        ).inorder(),
{
    reveal_with_fuel(Shape::slots, 3);
    reveal_with_fuel(Shape::distinct, 3);
    reveal_with_fuel(Shape::size, 3);
    reveal_with_fuel(Shape::inorder, 3);
    let down = Shape::fork(a, x, Shape::fork(b, y, c));
    let up = Shape::fork(Shape::fork(a, x, b), y, c);
    assert(down.slots() =~= up.slots());
    assert(down.inorder() =~= up.inorder());
}

/// What the two sides of a fork are, and how high and how level the fork is.
pub proof fn lemma_fork(left: Shape, at: usize, right: Shape)
    ensures
        Shape::fork(left, at, right).left() == left,
        Shape::fork(left, at, right).right() == right,
        Shape::fork(left, at, right).root() == Some(at),
        Shape::fork(left, at, right).height() == 1 + max_nat(left.height(), right.height()),
        Shape::fork(left, at, right).balanced() == (left.balanced() && right.balanced()
            && left.height() <= right.height() + 1 && right.height() <= left.height() + 1),
{
}

/// Mending a fork whose right side is the higher by two.
proof fn lemma_mend_right(t: Shape)
    requires
        t is Fork,
        t.left().balanced(),
        t.right().balanced(),
        t.right().height() == t.left().height() + 2,
    ensures
        t.mend().balanced(),
        t.mend() is Fork,
        t.mend().height() <= t.height() <= t.mend().height() + 1,
        t.mend().slots() == t.slots(),
        t.mend().distinct() == t.distinct(),
        t.mend().size() == t.size(),
        t.mend().inorder() == t.inorder(),
{
    let a = t.left();
    let x = t->at;
    let r = t.right();
    assert(r is Fork);
    let y = r->at;
    let c = r.right();
    assert(t == Shape::fork(a, x, r));
    assert(r == Shape::fork(r.left(), y, c));
    lemma_fork(a, x, r);
    lemma_fork(r.left(), y, c);
    if r.left().height() > c.height() {
        let m = r.left();
        assert(m is Fork);
        let z = m->at;
        let b1 = m.left();
        let b2 = m.right();
        assert(m == Shape::fork(b1, z, b2));
        lemma_fork(b1, z, b2);
        lemma_turn_shape(b1, z, b2, y, c);
        let lowered = Shape::fork(b1, z, Shape::fork(b2, y, c));
        assert(r.turn_right() == lowered);
        lemma_turn_shape(a, x, b1, z, Shape::fork(b2, y, c));
        let mended = Shape::fork(Shape::fork(a, x, b1), z, Shape::fork(b2, y, c));
        assert(t.mend() == mended);
        lemma_fork(a, x, b1);
        lemma_fork(b2, y, c);
        lemma_fork(Shape::fork(a, x, b1), z, Shape::fork(b2, y, c));
        lemma_fork(a, x, lowered);
        assert(Shape::fork(a, x, lowered).slots() =~= t.slots());
        assert(Shape::fork(a, x, lowered).distinct() == t.distinct());
        assert(Shape::fork(a, x, lowered).size() == t.size());
        assert(Shape::fork(a, x, lowered).inorder() =~= t.inorder());
    } else {
        let b = r.left();
        lemma_turn_shape(a, x, b, y, c);
        let mended = Shape::fork(Shape::fork(a, x, b), y, c);
        assert(t.mend() == mended);
        lemma_fork(a, x, b);
        lemma_fork(Shape::fork(a, x, b), y, c);
    }
}

/// Mending a fork whose left side is the higher by two.
proof fn lemma_mend_left(t: Shape)
    requires
        t is Fork,
        t.left().balanced(),
        t.right().balanced(),
        t.left().height() == t.right().height() + 2,
    ensures
        t.mend().balanced(),
        t.mend() is Fork,
        t.mend().height() <= t.height() <= t.mend().height() + 1,
        t.mend().slots() == t.slots(),
        t.mend().distinct() == t.distinct(),
        t.mend().size() == t.size(),
        t.mend().inorder() == t.inorder(),
{
    let c = t.right();
    let y = t->at;
    let l = t.left();
    assert(l is Fork);
    let x = l->at;
    let a = l.left();
    assert(t == Shape::fork(l, y, c));
    assert(l == Shape::fork(a, x, l.right()));
    lemma_fork(l, y, c);
    lemma_fork(a, x, l.right());
    if l.right().height() > a.height() {
        let m = l.right();
        assert(m is Fork);
        let z = m->at;
        let b1 = m.left();
        let b2 = m.right();
        assert(m == Shape::fork(b1, z, b2));
        lemma_fork(b1, z, b2);
        lemma_turn_shape(a, x, b1, z, b2);
        let raised = Shape::fork(Shape::fork(a, x, b1), z, b2);
        assert(l.turn_left() == raised);
        lemma_turn_shape(Shape::fork(a, x, b1), z, b2, y, c);
        let mended = Shape::fork(Shape::fork(a, x, b1), z, Shape::fork(b2, y, c));
        assert(t.mend() == mended);
        lemma_fork(a, x, b1);
        lemma_fork(b2, y, c);
        lemma_fork(Shape::fork(a, x, b1), z, Shape::fork(b2, y, c));
        lemma_fork(raised, y, c);
        assert(Shape::fork(raised, y, c).slots() =~= t.slots());
        assert(Shape::fork(raised, y, c).distinct() == t.distinct());
        assert(Shape::fork(raised, y, c).size() == t.size());
        assert(Shape::fork(raised, y, c).inorder() =~= t.inorder());
    } else {
        let b = l.right();
        lemma_turn_shape(a, x, b, y, c);
        let mended = Shape::fork(a, x, Shape::fork(b, y, c));
        assert(t.mend() == mended);
        lemma_fork(b, y, c);
        lemma_fork(a, x, Shape::fork(b, y, c));
    }
}

/// Mending a fork whose sides are balanced and differ in height by at most
/// two gives a balanced outline of the same slots in the same order, no
/// higher than the fork and at most one lower.
pub proof fn lemma_mend(t: Shape)
    requires
        t is Fork,
        t.left().balanced(),
        t.right().balanced(),
        t.level(2),
    ensures
        t.mend().balanced(),
        t.mend() is Fork,
        t.mend().height() <= t.height() <= t.mend().height() + 1,
        t.level(1) ==> t.mend() == t,
        t.mend().slots() == t.slots(),
        t.mend().distinct() == t.distinct(),
        t.mend().size() == t.size(),
        t.mend().inorder() == t.inorder(),
{
    if t.right_heavy() {
        lemma_mend_right(t);
    } else if t.left_heavy() {
        lemma_mend_left(t);
    }
}

/// A finite set of indices below `bound` has at most `bound` members.
pub proof fn lemma_bounded_set(slots: Set<usize>, bound: nat)
    requires
        slots.finite(),
        forall|i: usize| slots.contains(i) ==> i < bound,
    ensures
        slots.len() <= bound,
    decreases bound,
{
    if bound == 0 {
        assert(slots =~= Set::empty());
    } else {
        let top = (bound - 1) as usize;
        if bound - 1 <= usize::MAX {
            lemma_bounded_set(slots.remove(top), (bound - 1) as nat);
        } else {
            lemma_bounded_set(slots, (bound - 1) as nat);
        }
    }
}

/// The slots of an outline are finitely many, and as many as its size where
/// none stands twice; `inorder` lists each of them.
pub proof fn lemma_shape_size(t: Shape)
    ensures
        t.slots().finite(),
        t.inorder().len() == t.size(),
        t.height() <= t.size(),
        t.distinct() ==> t.slots().len() == t.size(),
        forall|k: int| 0 <= k < t.inorder().len() ==> t.slots().contains(#[trigger] t.inorder()[k]),
        forall|i: usize|
            t.slots().contains(i) ==> exists|k: int|
                0 <= k < t.inorder().len() && t.inorder()[k] == i,
    decreases t,
{
    match t {
        Shape::Leaf => {},
        Shape::Fork { left, at, right } => {
            lemma_shape_size(*left);
            lemma_shape_size(*right);
            if t.distinct() {
                vstd::set_lib::lemma_set_disjoint_lens(left.slots(), right.slots());
            }
            let l = left.inorder();
            let r = right.inorder();
            assert forall|i: usize| t.slots().contains(i) implies exists|k: int|
                0 <= k < t.inorder().len() && t.inorder()[k] == i by {
                if i == at {
                    assert(t.inorder()[l.len() as int] == at);
                } else if left.slots().contains(i) {
                    let k = choose|k: int| 0 <= k < l.len() && l[k] == i;
                    assert(t.inorder()[k] == i);
                } else {
                    let k = choose|k: int| 0 <= k < r.len() && r[k] == i;
                    assert(t.inorder()[l.len() + 1 + k] == i);
                }
            }
            assert forall|k: int| 0 <= k < t.inorder().len() implies t.slots().contains(
                #[trigger] t.inorder()[k],
            ) by {
                if k < l.len() {
                    assert(t.inorder()[k] == l[k]);
                } else if k > l.len() {
                    assert(t.inorder()[k] == r[k - l.len() - 1]);
                }
            }
        },
    }
}

/// In an outline whose slots all lie below `bound` and none of which stands
/// twice, neither the size nor the height exceeds `bound`.
pub proof fn lemma_shape_fits(t: Shape, bound: nat)
    requires
        t.distinct(),
        forall|i: usize| t.slots().contains(i) ==> i < bound,
    ensures
        t.height() <= t.size() <= bound,
{
    lemma_shape_size(t);
    lemma_bounded_set(t.slots(), bound);
}

/// What hangs at a slot of an outline is a fork with that slot on top, lies
/// within the outline, and fills the stretch of `inorder` that begins at the
/// slot's offset.
pub proof fn lemma_below(t: Shape, slot: usize)
    requires
        t.distinct(),
        t.slots().contains(slot),
    ensures
        t.below(slot).root() == Some(slot),
        t.below(slot).distinct(),
        t.below(slot).slots().subset_of(t.slots()),
        0 <= t.offset(slot),
        t.offset(slot) + t.below(slot).size() <= t.size(),
        t.inorder().subrange(t.offset(slot), t.offset(slot) + t.below(slot).size())
            == t.below(slot).inorder(),
        t.below(slot).height() + t.depth(slot) <= t.height(),
        t.balanced() ==> t.below(slot).balanced(),
    decreases t,
{
    lemma_shape_size(t);
    match t {
        Shape::Leaf => {},
        Shape::Fork { left, at, right } => {
            lemma_shape_size(*left);
            lemma_shape_size(*right);
            if at == slot {
                assert(t.inorder().subrange(0, t.size() as int) =~= t.inorder());
            } else if left.slots().contains(slot) {
                lemma_below(*left, slot);
                let from = left.offset(slot);
                let to = from + left.below(slot).size();
                assert(t.inorder().subrange(from, to) =~= left.inorder().subrange(from, to));
            } else {
                lemma_below(*right, slot);
                let from = right.offset(slot);
                let to = from + right.below(slot).size();
                let shift = left.size() + 1;
                assert(t.inorder().subrange(shift + from, shift + to) =~= right.inorder().subrange(
                    from,
                    to,
                ));
            }
        },
    }
}

/// The slot on top of what hangs at `slot` sits in `inorder` right after the
/// left part of what hangs there.
pub open spec fn place(t: Shape, slot: usize) -> int {
    match t.below(slot) {
        Shape::Leaf => 0,
        Shape::Fork { left, .. } => t.offset(slot) + left.size(),
    }
}

/// A slot of an outline stands in `inorder` at its place.
pub proof fn lemma_place(t: Shape, slot: usize)
    requires
        t.distinct(),
        t.slots().contains(slot),
    ensures
        0 <= place(t, slot) < t.size(),
        t.inorder()[place(t, slot)] == slot,
{
    lemma_below(t, slot);
    lemma_shape_size(t);
    match t.below(slot) {
        Shape::Leaf => {},
        Shape::Fork { left, at, right } => {
            lemma_shape_size(*left);
            lemma_shape_size(*right);
            let sub = t.below(slot);
            let from = t.offset(slot);
            assert(sub.inorder()[left.size() as int] == slot);
            assert(t.inorder().subrange(from, from + sub.size())[left.size() as int]
                == t.inorder()[from + left.size()]);
        },
    }
}

/// Where a slot hangs under another, the part below it is the left or the
/// right side of the part below the other, one level further down.
pub proof fn lemma_below_child(t: Shape, upper: usize, lower: usize)
    requires
        t.distinct(),
        t.slots().contains(upper),
        t.below(upper) matches Shape::Fork { left, right, .. } && (left.root() == Some(lower)
            || right.root() == Some(lower)),
    ensures
        t.slots().contains(lower),
        t.depth(lower) == t.depth(upper) + 1,
        t.below(upper) matches Shape::Fork { left, right, .. } && (if left.root() == Some(lower) {
            t.below(lower) == *left && t.offset(lower) == t.offset(upper)
        } else {
            t.below(lower) == *right && t.offset(lower) == t.offset(upper) + left.size() + 1
        }),
    decreases t,
{
    match t {
        Shape::Leaf => {},
        Shape::Fork { left, at, right } => {
            if at == upper {
                if left.root() == Some(lower) {
                    lemma_top(*left);
                } else {
                    lemma_top(*right);
                }
            } else if left.slots().contains(upper) {
                lemma_below(*left, upper);
                lemma_below_child(*left, upper, lower);
            } else {
                lemma_below(*right, upper);
                lemma_below_child(*right, upper, lower);
            }
        },
    }
}

/// An outline hangs whole at its own top slot.
pub proof fn lemma_top(t: Shape)
    requires
        t.root() is Some,
    ensures
        t.slots().contains(t.root().unwrap()),
        t.below(t.root().unwrap()) == t,
        t.offset(t.root().unwrap()) == 0,
        t.depth(t.root().unwrap()) == 0,
{
}

} // verus!
