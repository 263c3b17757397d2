//! Nodes in an arena, and what it means for them to form a search tree.
//!
//! Every predicate here takes the arena as a sequence of nodes and an
//! outline that says which slot stands where. The predicates are stated by
//! recursion over the outline; the lemmas say how they carry over when the
//! arena changes outside an outline, and what order on the keys gives.

use vstd::prelude::*;
use crate::order::{OrderView, Price};
use crate::order_stack::OrderStack;
use crate::shape::{Shape, lemma_shape_size, lemma_below, lemma_place, lemma_top, place};

verus! {

/// A price level of a tree: its key, the orders resting at it, and its links.
///
/// Links are indices into the arena of the tree that owns the node.
pub struct Node {
    pub key: Price,
    pub value: OrderStack,
    pub parent: Option<usize>,
    pub left: Option<usize>,
    pub right: Option<usize>,
    pub height: usize,
}

/// Which of its two child links a node has.
#[derive(Clone, Copy, Debug, PartialEq, Eq, Structural)]
pub enum Children {
    Neither,
    Left,
    Right,
    Both,
}

impl Node {
    /// Which children the node has.
    pub fn which_children_exist(&self) -> (children: Children)
        ensures
            children == match (self.left, self.right) {
                (None, None) => Children::Neither,
                (Some(_), None) => Children::Left,
                (None, Some(_)) => Children::Right,
                (Some(_), Some(_)) => Children::Both,
            },
    {
        match (self.left, self.right) {
            (None, None) => Children::Neither,
            (Some(_), None) => Children::Left,
            (None, Some(_)) => Children::Right,
            (Some(_), Some(_)) => Children::Both,
        }
    }

    /// The node's key and the orders resting at it.
    pub fn items(&self) -> (pair: (&Price, &OrderStack))
        ensures
            *pair.0 == self.key,
            *pair.1 == self.value,
    {
        (&self.key, &self.value)
    }

    /// The node's key.
    pub fn key(&self) -> (key: Price)
        ensures
            key == self.key,
    {
        self.key
    }
}

/// Whether the slot on top of `t` exists and points up at `parent` and down
/// at the tops of its two sides.
pub open spec fn wired(nodes: Seq<Node>, t: Shape, parent: Option<usize>) -> bool {
    match t {
        Shape::Leaf => true,
        Shape::Fork { left, at, right } => {
            &&& at < nodes.len()
            &&& nodes[at as int].parent == parent
            &&& nodes[at as int].left == left.root()
            &&& nodes[at as int].right == right.root()
        },
    }
}

/// Whether the nodes at the slots of `t` point at each other as `t` says,
/// the top one at `parent`, and each holds the height of what hangs at it.
pub open spec fn linked(nodes: Seq<Node>, t: Shape, parent: Option<usize>) -> bool
    decreases t,
{
    match t {
        Shape::Leaf => true,
        Shape::Fork { left, at, right } => {
            &&& wired(nodes, t, parent)
            &&& nodes[at as int].height == t.height()
            &&& linked(nodes, *left, Some(at))
            &&& linked(nodes, *right, Some(at))
        },
    }
}

/// As `linked`, but for the height held by the top node, which may be stale.
pub open spec fn joined(nodes: Seq<Node>, t: Shape, parent: Option<usize>) -> bool {
    match t {
        Shape::Leaf => true,
        Shape::Fork { left, at, right } => {
            &&& wired(nodes, t, parent)
            &&& linked(nodes, *left, Some(at))
            &&& linked(nodes, *right, Some(at))
        },
    }
}

/// Whether the keys at the slots of `t` lie strictly between `lo` and `hi`
/// and, at every fork, left of it below its key and right of it above.
pub open spec fn ordered(nodes: Seq<Node>, t: Shape, lo: int, hi: int) -> bool
    decreases t,
{
    match t {
        Shape::Leaf => true,
        Shape::Fork { left, at, right } => {
            &&& lo < nodes[at as int].key < hi
            &&& ordered(nodes, *left, lo, nodes[at as int].key as int)
            &&& ordered(nodes, *right, nodes[at as int].key as int, hi)
        },
    }
}

/// The price levels held at the slots of `t`: each key with its queue.
pub open spec fn contents(nodes: Seq<Node>, t: Shape) -> Map<Price, Seq<OrderView>>
    decreases t,
{
    match t {
        Shape::Leaf => Map::empty(),
        Shape::Fork { left, at, right } => contents(nodes, *left).union_prefer_right(
            contents(nodes, *right),
        ).insert(nodes[at as int].key, nodes[at as int].value@),
    }
}

/// The keys at the slots of `t`, from left to right.
pub open spec fn key_list(nodes: Seq<Node>, t: Shape) -> Seq<Price>
    decreases t,
{
    match t {
        Shape::Leaf => Seq::empty(),
        Shape::Fork { left, at, right } => key_list(nodes, *left).push(nodes[at as int].key)
            + key_list(nodes, *right),
    }
}

/// Whether two arenas have the same length and agree on every key and queue.
pub open spec fn same_data(a: Seq<Node>, b: Seq<Node>) -> bool {
    &&& a.len() == b.len()
    &&& forall|i: int|
        0 <= i < a.len() ==> (#[trigger] b[i]).key == a[i].key && b[i].value == a[i].value
}

/// Whether `b` holds at every slot of `a` outside `touched` what `a` holds there.
pub open spec fn same_outside(a: Seq<Node>, b: Seq<Node>, touched: Set<usize>) -> bool {
    &&& a.len() <= b.len()
    &&& forall|i: usize| i < a.len() && !touched.contains(i) ==> #[trigger] b[i as int] == a[i as int]
}

/// Whether every slot of `t` lies in the arena.
pub open spec fn housed(nodes: Seq<Node>, t: Shape) -> bool {
    forall|i: usize| t.slots().contains(i) ==> i < nodes.len()
}

/// The slots of a linked outline lie in the arena.
pub proof fn lemma_linked_housed(nodes: Seq<Node>, t: Shape, parent: Option<usize>)
    requires
        linked(nodes, t, parent),
    ensures
        housed(nodes, t),
    decreases t,
{
    if let Shape::Fork { left, at, right } = t {
        lemma_linked_housed(nodes, *left, Some(at));
        lemma_linked_housed(nodes, *right, Some(at));
        assert forall|i: usize| t.slots().contains(i) implies i < nodes.len() by {
            if i != at && !left.slots().contains(i) {
                assert(right.slots().contains(i));
            }
        }
    }
}

/// Whether two nodes hold the same links and the same height.
pub open spec fn same_links(a: Node, b: Node) -> bool {
    &&& a.parent == b.parent
    &&& a.left == b.left
    &&& a.right == b.right
    &&& a.height == b.height
}

/// An outline stays linked when no link and no height at its slots changes.
pub proof fn lemma_linked_frame(a: Seq<Node>, b: Seq<Node>, t: Shape, parent: Option<usize>)
    requires
        linked(a, t, parent),
        a.len() <= b.len(),
        forall|i: usize|
            t.slots().contains(i) && i < a.len() ==> same_links(a[i as int], #[trigger] b[i as int]),
    ensures
        linked(b, t, parent),
    decreases t,
{
    if let Shape::Fork { left, at, right } = t {
        assert(t.slots().contains(at));
        lemma_linked_frame(a, b, *left, Some(at));
        lemma_linked_frame(a, b, *right, Some(at));
    }
}

/// An outline stays linked, under another parent, when its top node is
/// given that parent and nothing else at its slots changes.
pub proof fn lemma_linked_reparent(
    a: Seq<Node>,
    b: Seq<Node>,
    t: Shape,
    parent: Option<usize>,
    adopter: Option<usize>,
)
    requires
        linked(a, t, parent),
        t.distinct(),
        a.len() <= b.len(),
        forall|i: usize|
            t.slots().contains(i) && i < a.len() && Some(i) != t.root() ==> same_links(
                a[i as int],
                #[trigger] b[i as int],
            ),
        t.root() matches Some(top) ==> {
            &&& b[top as int].parent == adopter
            &&& b[top as int].left == a[top as int].left
            &&& b[top as int].right == a[top as int].right
            &&& b[top as int].height == a[top as int].height
        },
    ensures
        linked(b, t, adopter),
{
    if let Shape::Fork { left, at, right } = t {
        lemma_linked_frame(a, b, *left, Some(at));
        lemma_linked_frame(a, b, *right, Some(at));
    }
}

/// Order, contents and keys depend only on the keys and queues at the slots
/// of an outline.
pub proof fn lemma_data_frame(a: Seq<Node>, b: Seq<Node>, t: Shape)
    requires
        housed(a, t),
        forall|i: usize|
            t.slots().contains(i) && i < a.len() ==> (#[trigger] b[i as int]).key == a[i as int].key
                && b[i as int].value@ == a[i as int].value@,
    ensures
        forall|lo: int, hi: int| ordered(a, t, lo, hi) == #[trigger] ordered(b, t, lo, hi),
        contents(a, t) == contents(b, t),
        key_list(a, t) == key_list(b, t),
    decreases t,
{
    if let Shape::Fork { left, at, right } = t {
        assert(t.slots().contains(at));
        assert forall|i: usize| left.slots().contains(i) implies t.slots().contains(i) by {}
        assert forall|i: usize| right.slots().contains(i) implies t.slots().contains(i) by {}
        lemma_data_frame(a, b, *left);
        lemma_data_frame(a, b, *right);
        assert forall|lo: int, hi: int| ordered(a, t, lo, hi) == #[trigger] ordered(
            b,
            t,
            lo,
            hi,
        ) by {
            let key = a[at as int].key as int;
            assert(ordered(a, *left, lo, key) == ordered(b, *left, lo, key));
            assert(ordered(a, *right, key, hi) == ordered(b, *right, key, hi));
        }
    }
}

/// Keys in order between two bounds are in order between wider bounds.
pub proof fn lemma_ordered_widen(nodes: Seq<Node>, t: Shape, lo: int, hi: int, lower: int, higher: int)
    requires
        ordered(nodes, t, lo, hi),
        lower <= lo,
        hi <= higher,
    ensures
        ordered(nodes, t, lower, higher),
    decreases t,
{
    if let Shape::Fork { left, at, right } = t {
        let key = nodes[at as int].key as int;
        lemma_ordered_widen(nodes, *left, lo, key, lower, key);
        lemma_ordered_widen(nodes, *right, key, hi, key, higher);
    }
}

/// Whether the keys of a list rise strictly.
pub open spec fn rising(keys: Seq<Price>) -> bool {
    forall|i: int, j: int| 0 <= i < j < keys.len() ==> keys[i] < keys[j]
}

/// What order gives: the keys of an ordered outline lie between its bounds
/// and rise strictly from left to right; they are the keys of its contents,
/// one level each, and each level holds the queue of its node.
pub proof fn lemma_ordered(nodes: Seq<Node>, t: Shape, lo: int, hi: int)
    requires
        ordered(nodes, t, lo, hi),
    ensures
        forall|k: Price| contents(nodes, t).contains_key(k) ==> lo < k < hi,
        key_list(nodes, t).len() == t.size(),
        rising(key_list(nodes, t)),
        forall|j: int|
            0 <= j < t.size() ==> {
                &&& #[trigger] key_list(nodes, t)[j] == nodes[t.inorder()[j] as int].key
                &&& contents(nodes, t).contains_key(key_list(nodes, t)[j])
                &&& contents(nodes, t)[key_list(nodes, t)[j]] == nodes[t.inorder()[j] as int].value@
            },
        forall|k: Price|
            contents(nodes, t).contains_key(k) ==> exists|j: int|
                0 <= j < t.size() && key_list(nodes, t)[j] == k,
        contents(nodes, t).dom().finite(),
        contents(nodes, t).dom().len() == t.size(),
    decreases t,
{
    lemma_shape_size(t);
    if let Shape::Fork { left, at, right } = t {
        let key = nodes[at as int].key;
        let l = contents(nodes, *left);
        let r = contents(nodes, *right);
        let lk = key_list(nodes, *left);
        let rk = key_list(nodes, *right);
        let all = key_list(nodes, t);
        lemma_ordered(nodes, *left, lo, key as int);
        lemma_ordered(nodes, *right, key as int, hi);
        lemma_shape_size(*left);
        lemma_shape_size(*right);
        assert forall|j: int| 0 <= j < t.size() implies {
            &&& #[trigger] all[j] == nodes[t.inorder()[j] as int].key
            &&& contents(nodes, t).contains_key(all[j])
            &&& contents(nodes, t)[all[j]] == nodes[t.inorder()[j] as int].value@
        } by {
            if j < lk.len() {
                assert(all[j] == lk[j]);
                assert(t.inorder()[j] == left.inorder()[j]);
                assert(l.contains_key(lk[j]));
            } else if j > lk.len() {
                let i = j - lk.len() - 1;
                assert(all[j] == rk[i]);
                assert(t.inorder()[j] == right.inorder()[i]);
                assert(r.contains_key(rk[i]));
            }
        }
        assert forall|i: int, j: int| 0 <= i < j < all.len() implies all[i] < all[j] by {
            if i < lk.len() {
                assert(l.contains_key(lk[i]));
            }
            if j > lk.len() {
                assert(r.contains_key(rk[j - lk.len() - 1]));
            }
            if i > lk.len() {
                assert(all[i] == rk[i - lk.len() - 1]);
            }
            if j < lk.len() {
                assert(all[j] == lk[j]);
            }
        }
        assert forall|k: Price| contents(nodes, t).contains_key(k) implies exists|j: int|
            0 <= j < t.size() && all[j] == k by {
            if k == key {
                assert(all[lk.len() as int] == k);
            } else if r.contains_key(k) {
                let j = choose|j: int| 0 <= j < right.size() && rk[j] == k;
                assert(all[lk.len() + 1 + j] == k);
            } else {
                let j = choose|j: int| 0 <= j < left.size() && lk[j] == k;
                assert(all[j] == k);
            }
        }
        assert(l.dom().disjoint(r.dom()));
        assert(l.union_prefer_right(r).dom() =~= l.dom().union(r.dom()));
        vstd::set_lib::lemma_set_disjoint_lens(l.dom(), r.dom());
        assert(contents(nodes, t).dom() =~= l.dom().union(r.dom()).insert(key));
    }
}

/// Turning a fork round one of its edges keeps order, contents and keys:
/// `x` over `a` and (`y` over `b` and `c`) holds what `y` over (`x` over
/// `a` and `b`) and `c` holds.
pub proof fn lemma_turn(nodes: Seq<Node>, a: Shape, x: usize, b: Shape, y: usize, c: Shape, lo: int, hi: int)
    ensures
        ordered(nodes, Shape::fork(a, x, Shape::fork(b, y, c)), lo, hi) == ordered(
            nodes,
            Shape::fork(Shape::fork(a, x, b), y, c),
            lo,
            hi,
        ),
        ordered(nodes, Shape::fork(a, x, Shape::fork(b, y, c)), lo, hi) ==> contents(
            nodes,
            Shape::fork(a, x, Shape::fork(b, y, c)),
        ) == contents(nodes, Shape::fork(Shape::fork(a, x, b), y, c)),
        key_list(nodes, Shape::fork(a, x, Shape::fork(b, y, c))) == key_list(
            nodes,
            Shape::fork(Shape::fork(a, x, b), y, c),
        ),
        Shape::fork(a, x, Shape::fork(b, y, c)).slots() == Shape::fork(Shape::fork(a, x, b), y, c).slots(),
        Shape::fork(a, x, Shape::fork(b, y, c)).distinct() == Shape::fork(
            Shape::fork(a, x, b),
            y,
            c,
        ).distinct(),
{
    reveal_with_fuel(ordered, 3);
    reveal_with_fuel(contents, 3);
    reveal_with_fuel(key_list, 3);
    reveal_with_fuel(Shape::slots, 3);
    reveal_with_fuel(Shape::distinct, 3);
    let down = Shape::fork(a, x, Shape::fork(b, y, c));
    let up = Shape::fork(Shape::fork(a, x, b), y, c);
    let kx = nodes[x as int].key as int;
    let ky = nodes[y as int].key as int;
    assert(down.slots() =~= up.slots());
    assert(key_list(nodes, down) =~= key_list(nodes, up));
    if ordered(nodes, down, lo, hi) {
        lemma_ordered_widen(nodes, a, lo, kx, lo, ky);
        lemma_ordered(nodes, a, lo, kx);
        lemma_ordered(nodes, b, kx, ky);
        lemma_ordered(nodes, c, ky, hi);
        assert(contents(nodes, down) =~= contents(nodes, up));
    }
    if ordered(nodes, up, lo, hi) {
        lemma_ordered_widen(nodes, c, ky, hi, kx, hi);
    }
}

/// A left rotation round the top keeps order, contents and keys.
pub proof fn lemma_turn_left_data(nodes: Seq<Node>, t: Shape, lo: int, hi: int)
    ensures
        ordered(nodes, t.turn_left(), lo, hi) == ordered(nodes, t, lo, hi),
        ordered(nodes, t, lo, hi) ==> contents(nodes, t.turn_left()) == contents(nodes, t),
        key_list(nodes, t.turn_left()) == key_list(nodes, t),
{
    if t is Fork && t.right() is Fork {
        let r = t.right();
        assert(t == Shape::fork(t.left(), t->at, Shape::fork(r.left(), r->at, r.right())));
        lemma_turn(nodes, t.left(), t->at, r.left(), r->at, r.right(), lo, hi);
    }
}

/// A right rotation round the top keeps order, contents and keys.
pub proof fn lemma_turn_right_data(nodes: Seq<Node>, t: Shape, lo: int, hi: int)
    ensures
        ordered(nodes, t.turn_right(), lo, hi) == ordered(nodes, t, lo, hi),
        ordered(nodes, t, lo, hi) ==> contents(nodes, t.turn_right()) == contents(nodes, t),
        key_list(nodes, t.turn_right()) == key_list(nodes, t),
{
    if t is Fork && t.left() is Fork {
        let l = t.left();
        assert(t == Shape::fork(Shape::fork(l.left(), l->at, l.right()), t->at, t.right()));
        lemma_turn(nodes, l.left(), l->at, l.right(), t->at, t.right(), lo, hi);
    }
}

/// Mending a fork keeps order, contents and keys.
pub proof fn lemma_mend_data(nodes: Seq<Node>, t: Shape, lo: int, hi: int)
    requires
        ordered(nodes, t, lo, hi),
    ensures
        ordered(nodes, t.mend(), lo, hi),
        contents(nodes, t.mend()) == contents(nodes, t),
        key_list(nodes, t.mend()) == key_list(nodes, t),
{
    if let Shape::Fork { left, at, right } = t {
        let key = nodes[at as int].key as int;
        if t.right_heavy() {
            if t.right().left().height() > t.right().right().height() {
                let lowered = Shape::fork(*left, at, right.turn_right());
                lemma_turn_right_data(nodes, *right, key, hi);
                lemma_turn_left_data(nodes, lowered, lo, hi);
            } else {
                lemma_turn_left_data(nodes, t, lo, hi);
            }
        } else if t.left_heavy() {
            if t.left().right().height() > t.left().left().height() {
                let raised = Shape::fork(left.turn_left(), at, *right);
                lemma_turn_left_data(nodes, *left, lo, key);
                lemma_turn_right_data(nodes, raised, lo, hi);
            } else {
                lemma_turn_right_data(nodes, t, lo, hi);
            }
        }
    }
}

/// The slots of a joined outline lie in the arena.
pub proof fn lemma_joined_housed(nodes: Seq<Node>, t: Shape, parent: Option<usize>)
    requires
        joined(nodes, t, parent),
    ensures
        housed(nodes, t),
{
    if let Shape::Fork { left, at, right } = t {
        lemma_linked_housed(nodes, *left, Some(at));
        lemma_linked_housed(nodes, *right, Some(at));
        assert forall|i: usize| t.slots().contains(i) implies i < nodes.len() by {
            if i != at && !left.slots().contains(i) {
                assert(right.slots().contains(i));
            }
        }
    }
}

/// What balancing a fork leaves of its data: the mended outline over the
/// arena after holds, in order, what the fork held over the arena before.
pub proof fn lemma_balance_data(before: Seq<Node>, after: Seq<Node>, t: Shape, lo: int, hi: int)
    requires
        same_data(before, after),
        housed(before, t),
        ordered(before, t, lo, hi),
    ensures
        ordered(after, t.mend(), lo, hi),
        contents(after, t.mend()) == contents(before, t),
        key_list(after, t.mend()) == key_list(before, t),
{
    lemma_data_frame(before, after, t);
    lemma_mend_data(after, t, lo, hi);
}

/// Whether the slots on the free list lie in the arena, none twice and none in use.
pub open spec fn spare(room: nat, free: Seq<usize>, used: Set<usize>) -> bool {
    &&& free.no_duplicates()
    &&& forall|k: int| 0 <= k < free.len() ==> (#[trigger] free[k]) < room && !used.contains(free[k])
}

/// The queue at `key` after `order` has joined it: behind the orders already
/// there, or alone where the level is new.
pub open spec fn pushed(levels: Map<Price, Seq<OrderView>>, key: Price, order: OrderView) -> Seq<
    OrderView,
> {
    if levels.contains_key(key) {
        levels[key].push(order)
    } else {
        seq![order]
    }
}

/// A level written into the left side of a fork is written into the fork.
pub proof fn lemma_write_left(
    left: Map<Price, Seq<OrderView>>,
    right: Map<Price, Seq<OrderView>>,
    top: Price,
    queue: Seq<OrderView>,
    key: Price,
    level: Seq<OrderView>,
)
    requires
        key != top,
        !right.contains_key(key),
    ensures
        left.insert(key, level).union_prefer_right(right).insert(top, queue) == left.union_prefer_right(
            right,
        ).insert(top, queue).insert(key, level),
        left.union_prefer_right(right).insert(top, queue).contains_key(key) == left.contains_key(key),
        left.contains_key(key) ==> left.union_prefer_right(right).insert(top, queue)[key] == left[key],
{
    assert(left.insert(key, level).union_prefer_right(right).insert(top, queue)
        =~= left.union_prefer_right(right).insert(top, queue).insert(key, level));
}

/// A level written into the right side of a fork is written into the fork.
pub proof fn lemma_write_right(
    left: Map<Price, Seq<OrderView>>,
    right: Map<Price, Seq<OrderView>>,
    top: Price,
    queue: Seq<OrderView>,
    key: Price,
    level: Seq<OrderView>,
)
    requires
        key != top,
        !left.contains_key(key),
    ensures
        left.union_prefer_right(right.insert(key, level)).insert(top, queue) == left.union_prefer_right(
            right,
        ).insert(top, queue).insert(key, level),
        left.union_prefer_right(right).insert(top, queue).contains_key(key) == right.contains_key(key),
        right.contains_key(key) ==> left.union_prefer_right(right).insert(top, queue)[key]
            == right[key],
{
    assert(left.union_prefer_right(right.insert(key, level)).insert(top, queue)
        =~= left.union_prefer_right(right).insert(top, queue).insert(key, level));
}

/// Hanging a new left side under the top of a linked outline.
///
/// `before` holds `t`; `mid` holds `side`, linked under the top slot of `t`
/// and made of slots of the old left side or of slots not in use, and agrees
/// with `before` outside `side`; `set` is `mid` with the top slot's left
/// link pointed at the top of `side`. Then `set` holds the fork of `side`,
/// the top slot and the old right side, but for the height at its top.
pub proof fn lemma_stitch_left(
    before: Seq<Node>,
    mid: Seq<Node>,
    set: Seq<Node>,
    t: Shape,
    side: Shape,
    parent: Option<usize>,
    used: Set<usize>,
    lo: int,
    hi: int,
)
    requires
        t is Fork,
        linked(before, t, parent),
        t.distinct(),
        ordered(before, t, lo, hi),
        t.slots().subset_of(used),
        linked(mid, side, Some(t->at)),
        side.distinct(),
        ordered(mid, side, lo, before[t->at as int].key as int),
        forall|i: usize| side.slots().contains(i) ==> t.left().slots().contains(i) || !used.contains(i),
        same_outside(before, mid, side.slots().union(t.left().slots())),
        set.len() == mid.len(),
        forall|i: int| 0 <= i < mid.len() && i != t->at ==> set[i] == mid[i],
        set[t->at as int].key == mid[t->at as int].key,
        set[t->at as int].value == mid[t->at as int].value,
        set[t->at as int].parent == mid[t->at as int].parent,
        set[t->at as int].right == mid[t->at as int].right,
        set[t->at as int].left == side.root(),
    ensures
        joined(set, Shape::fork(side, t->at, t.right()), parent),
        Shape::fork(side, t->at, t.right()).distinct(),
        housed(set, Shape::fork(side, t->at, t.right())),
        ordered(set, Shape::fork(side, t->at, t.right()), lo, hi),
        contents(set, Shape::fork(side, t->at, t.right())) == contents(mid, side).union_prefer_right(
            contents(before, t.right()),
        ).insert(before[t->at as int].key, before[t->at as int].value@),
        key_list(set, Shape::fork(side, t->at, t.right())) == key_list(mid, side).push(
            before[t->at as int].key,
        ) + key_list(before, t.right()),
        used.union(Shape::fork(side, t->at, t.right()).slots()) == used.union(side.slots()),
        same_outside(before, set, Shape::fork(side, t->at, t.right()).slots().union(t.slots())),
        forall|i: usize|
            Shape::fork(side, t->at, t.right()).slots().contains(i) ==> t.slots().contains(i)
                || !used.contains(i),
{
    let at = t->at;
    let r = t.right();
    let l = t.left();
    let between = Shape::fork(side, at, r);
    lemma_linked_housed(before, t, parent);
    lemma_linked_housed(before, r, Some(at));
    lemma_linked_housed(mid, side, Some(at));
    assert(t.slots().contains(at));
    assert(!side.slots().contains(at));
    assert forall|i: usize| r.slots().contains(i) implies used.contains(i) && !side.slots().contains(
        i,
    ) && !l.slots().contains(i) && i != at && i < before.len() by {
        assert(t.slots().contains(i));
    }
    assert(mid[at as int] == before[at as int]);
    assert forall|i: usize| r.slots().contains(i) && i < before.len() implies same_links(
        before[i as int],
        #[trigger] set[i as int],
    ) && set[i as int].key == before[i as int].key && set[i as int].value@ == before[i as int].value@ by {
        assert(t.slots().contains(i));
        assert(!side.slots().union(l.slots()).contains(i));
        assert(mid[i as int] == before[i as int]);
        assert(set[i as int] == mid[i as int]);
    }
    lemma_linked_frame(before, set, r, Some(at));
    lemma_data_frame(before, set, r);
    lemma_linked_frame(mid, set, side, Some(at));
    lemma_data_frame(mid, set, side);
    assert(used.union(between.slots()) =~= used.union(side.slots()));
    assert forall|i: usize| between.slots().contains(i) implies i < set.len() by {}
    assert(side.slots().disjoint(r.slots())) by {
        assert forall|i: usize| !(side.slots().contains(i) && r.slots().contains(i)) by {
            if r.slots().contains(i) {
                assert(t.slots().contains(i));
            }
        }
    }
    let key = before[at as int].key as int;
    assert(ordered(set, side, lo, key));
    assert(ordered(set, r, key, hi));
}

/// Hanging a new right side under the top of a linked outline; the mirror
/// image of `lemma_stitch_left`.
pub proof fn lemma_stitch_right(
    before: Seq<Node>,
    mid: Seq<Node>,
    set: Seq<Node>,
    t: Shape,
    side: Shape,
    parent: Option<usize>,
    used: Set<usize>,
    lo: int,
    hi: int,
)
    requires
        t is Fork,
        linked(before, t, parent),
        t.distinct(),
        ordered(before, t, lo, hi),
        t.slots().subset_of(used),
        linked(mid, side, Some(t->at)),
        side.distinct(),
        ordered(mid, side, before[t->at as int].key as int, hi),
        forall|i: usize| side.slots().contains(i) ==> t.right().slots().contains(i) || !used.contains(i),
        same_outside(before, mid, side.slots().union(t.right().slots())),
        set.len() == mid.len(),
        forall|i: int| 0 <= i < mid.len() && i != t->at ==> set[i] == mid[i],
        set[t->at as int].key == mid[t->at as int].key,
        set[t->at as int].value == mid[t->at as int].value,
        set[t->at as int].parent == mid[t->at as int].parent,
        set[t->at as int].left == mid[t->at as int].left,
        set[t->at as int].right == side.root(),
    ensures
        joined(set, Shape::fork(t.left(), t->at, side), parent),
        Shape::fork(t.left(), t->at, side).distinct(),
        housed(set, Shape::fork(t.left(), t->at, side)),
        ordered(set, Shape::fork(t.left(), t->at, side), lo, hi),
        contents(set, Shape::fork(t.left(), t->at, side)) == contents(before, t.left()).union_prefer_right(
            contents(mid, side),
        ).insert(before[t->at as int].key, before[t->at as int].value@),
        key_list(set, Shape::fork(t.left(), t->at, side)) == key_list(before, t.left()).push(
            before[t->at as int].key,
        ) + key_list(mid, side),
        used.union(Shape::fork(t.left(), t->at, side).slots()) == used.union(side.slots()),
        same_outside(before, set, Shape::fork(t.left(), t->at, side).slots().union(t.slots())),
        forall|i: usize|
            Shape::fork(t.left(), t->at, side).slots().contains(i) ==> t.slots().contains(i)
                || !used.contains(i),
{
    let at = t->at;
    let r = t.right();
    let l = t.left();
    let between = Shape::fork(l, at, side);
    lemma_linked_housed(before, t, parent);
    lemma_linked_housed(before, l, Some(at));
    lemma_linked_housed(mid, side, Some(at));
    assert(t.slots().contains(at));
    assert(!side.slots().contains(at));
    assert forall|i: usize| l.slots().contains(i) implies used.contains(i) && !side.slots().contains(
        i,
    ) && !r.slots().contains(i) && i != at && i < before.len() by {
        assert(t.slots().contains(i));
    }
    assert(mid[at as int] == before[at as int]);
    assert forall|i: usize| l.slots().contains(i) && i < before.len() implies same_links(
        before[i as int],
        #[trigger] set[i as int],
    ) && set[i as int].key == before[i as int].key && set[i as int].value@ == before[i as int].value@ by {
        assert(t.slots().contains(i));
        assert(!side.slots().union(r.slots()).contains(i));
        assert(mid[i as int] == before[i as int]);
        assert(set[i as int] == mid[i as int]);
    }
    lemma_linked_frame(before, set, l, Some(at));
    lemma_data_frame(before, set, l);
    lemma_linked_frame(mid, set, side, Some(at));
    lemma_data_frame(mid, set, side);
    assert(used.union(between.slots()) =~= used.union(side.slots()));
    assert forall|i: usize| between.slots().contains(i) implies i < set.len() by {}
    assert(l.slots().disjoint(side.slots())) by {
        assert forall|i: usize| !(side.slots().contains(i) && l.slots().contains(i)) by {
            if l.slots().contains(i) {
                assert(t.slots().contains(i));
            }
        }
    }
    let key = before[at as int].key as int;
    assert(ordered(set, side, key, hi));
    assert(ordered(set, l, lo, key));
}

/// Keys in order between two bounds are in order between any bounds that
/// every key of the contents lies between.
pub proof fn lemma_ordered_tighten(nodes: Seq<Node>, t: Shape, lo: int, hi: int, lower: int, higher: int)
    requires
        ordered(nodes, t, lo, hi),
        forall|k: Price| contents(nodes, t).contains_key(k) ==> lower < k < higher,
    ensures
        ordered(nodes, t, lower, higher),
    decreases t,
{
    if let Shape::Fork { left, at, right } = t {
        let key = nodes[at as int].key;
        assert(contents(nodes, t).contains_key(key));
        lemma_ordered(nodes, *left, lo, key as int);
        lemma_ordered(nodes, *right, key as int, hi);
        assert forall|k: Price| contents(nodes, *left).contains_key(k) implies lower < k
            < key by {
            assert(contents(nodes, t).contains_key(k));
        }
        assert forall|k: Price| contents(nodes, *right).contains_key(k) implies key < k
            < higher by {
            assert(contents(nodes, t).contains_key(k));
        }
        lemma_ordered_tighten(nodes, *left, lo, key as int, lower, key as int);
        lemma_ordered_tighten(nodes, *right, key as int, hi, key as int, higher);
    }
}

/// A level taken out of the left side of a fork is taken out of the fork.
pub proof fn lemma_erase_left(
    left: Map<Price, Seq<OrderView>>,
    right: Map<Price, Seq<OrderView>>,
    top: Price,
    queue: Seq<OrderView>,
    key: Price,
)
    requires
        key != top,
        !right.contains_key(key),
    ensures
        left.remove(key).union_prefer_right(right).insert(top, queue) == left.union_prefer_right(
            right,
        ).insert(top, queue).remove(key),
{
    assert(left.remove(key).union_prefer_right(right).insert(top, queue) =~= left.union_prefer_right(
        right,
    ).insert(top, queue).remove(key));
}

/// A level taken out of the right side of a fork is taken out of the fork.
pub proof fn lemma_erase_right(
    left: Map<Price, Seq<OrderView>>,
    right: Map<Price, Seq<OrderView>>,
    top: Price,
    queue: Seq<OrderView>,
    key: Price,
)
    requires
        key != top,
        !left.contains_key(key),
    ensures
        left.union_prefer_right(right.remove(key)).insert(top, queue) == left.union_prefer_right(
            right,
        ).insert(top, queue).remove(key),
{
    assert(left.union_prefer_right(right.remove(key)).insert(top, queue) =~= left.union_prefer_right(
        right,
    ).insert(top, queue).remove(key));
}

/// The level at the top of a fork taken out, where the keys of the left side
/// lie below it and those of the right side above: what is left is the two
/// sides; and with the least level of the right side put on top in its
/// place, it is the same again.
pub proof fn lemma_erase_top(
    left: Map<Price, Seq<OrderView>>,
    right: Map<Price, Seq<OrderView>>,
    top: Price,
    queue: Seq<OrderView>,
    heir: Price,
)
    requires
        forall|k: Price| left.contains_key(k) ==> k < top,
        forall|k: Price| right.contains_key(k) ==> top < k,
    ensures
        left.union_prefer_right(right).insert(top, queue).remove(top) == left.union_prefer_right(
            right,
        ),
        right.contains_key(heir) ==> left.union_prefer_right(right.remove(heir)).insert(
            heir,
            right[heir],
        ) == left.union_prefer_right(right),
        left.union_prefer_right(Map::empty()) == left,
        Map::<Price, Seq<OrderView>>::empty().union_prefer_right(right) == right,
{
    assert(left.union_prefer_right(right).insert(top, queue).remove(top) =~= left.union_prefer_right(
        right,
    ));
    if right.contains_key(heir) {
        assert(left.union_prefer_right(right.remove(heir)).insert(heir, right[heir])
            =~= left.union_prefer_right(right));
    }
    assert(left.union_prefer_right(Map::empty()) =~= left);
    assert(Map::<Price, Seq<OrderView>>::empty().union_prefer_right(right) =~= right);
}

/// What holds of a slot of a linked outline in search order.
///
/// What hangs at the slot is linked under the slot's parent link and is in
/// order. The key at the slot is a key of the contents, with the slot's
/// queue, and stands in the key list at the slot's place. The top slot has
/// the outline's parent; any other slot has a parent in the outline, and is
/// either the top of that parent's left side or the top of its right side.
pub proof fn lemma_slot(
    nodes: Seq<Node>,
    t: Shape,
    parent: Option<usize>,
    lo: int,
    hi: int,
    slot: usize,
)
    requires
        linked(nodes, t, parent),
        t.distinct(),
        ordered(nodes, t, lo, hi),
        t.slots().contains(slot),
    ensures
        slot < nodes.len(),
        t.below(slot) is Fork,
        t.below(slot)->at == slot,
        linked(nodes, t.below(slot), nodes[slot as int].parent),
        ordered(nodes, t.below(slot), lo, hi),
        lo < nodes[slot as int].key < hi,
        contents(nodes, t).contains_key(nodes[slot as int].key),
        contents(nodes, t)[nodes[slot as int].key] == nodes[slot as int].value@,
        0 <= place(t, slot) < t.size(),
        key_list(nodes, t)[place(t, slot)] == nodes[slot as int].key,
        key_list(nodes, t).len() == t.size(),
        t.root() == Some(slot) ==> nodes[slot as int].parent == parent,
        t.root() != Some(slot) ==> {
            &&& nodes[slot as int].parent matches Some(above)
            &&& t.slots().contains(above)
            &&& above != slot
            &&& t.below(above) is Fork
            &&& if nodes[above as int].left == Some(slot) {
                nodes[above as int].right != Some(slot) && t.below(above).left() == t.below(slot)
            } else {
                nodes[above as int].right == Some(slot) && t.below(above).right() == t.below(slot)
            }
        },
    decreases t,
{
    lemma_below(t, slot);
    lemma_place(t, slot);
    lemma_ordered(nodes, t, lo, hi);
    lemma_linked_housed(nodes, t, parent);
    let index = place(t, slot);
    assert(key_list(nodes, t)[index] == nodes[t.inorder()[index] as int].key);
    if let Shape::Fork { left, at, right } = t {
        let key = nodes[at as int].key as int;
        if at == slot {
        } else if left.slots().contains(slot) {
            lemma_slot(nodes, *left, Some(at), lo, key, slot);
            lemma_ordered_widen(nodes, left.below(slot), lo, key, lo, hi);
            if left.root() == Some(slot) {
                lemma_top(*left);
                if right.root() == Some(slot) {
                    lemma_top(*right);
                }
            } else {
                let above = nodes[slot as int].parent.unwrap();
                assert(t.below(above) == left.below(above));
            }
        } else {
            lemma_slot(nodes, *right, Some(at), key, hi, slot);
            lemma_ordered_widen(nodes, right.below(slot), key, hi, lo, hi);
            if right.root() == Some(slot) {
                lemma_top(*right);
                if left.root() == Some(slot) {
                    lemma_top(*left);
                }
            } else {
                let above = nodes[slot as int].parent.unwrap();
                assert(t.below(above) == right.below(above));
            }
        }
    }
}

/// Order and the key list depend only on the keys at the slots of an outline.
pub proof fn lemma_key_frame(a: Seq<Node>, b: Seq<Node>, t: Shape)
    requires
        housed(a, t),
        forall|i: usize|
            t.slots().contains(i) && i < a.len() ==> (#[trigger] b[i as int]).key == a[i as int].key,
    ensures
        forall|lo: int, hi: int| ordered(a, t, lo, hi) == #[trigger] ordered(b, t, lo, hi),
        key_list(a, t) == key_list(b, t),
    decreases t,
{
    if let Shape::Fork { left, at, right } = t {
        assert(t.slots().contains(at));
        assert forall|i: usize| left.slots().contains(i) implies t.slots().contains(i) by {}
        assert forall|i: usize| right.slots().contains(i) implies t.slots().contains(i) by {}
        lemma_key_frame(a, b, *left);
        lemma_key_frame(a, b, *right);
        assert forall|lo: int, hi: int| ordered(a, t, lo, hi) == #[trigger] ordered(
            b,
            t,
            lo,
            hi,
        ) by {
            let key = a[at as int].key as int;
            assert(ordered(a, *left, lo, key) == ordered(b, *left, lo, key));
            assert(ordered(a, *right, key, hi) == ordered(b, *right, key, hi));
        }
    }
}

/// Writing another queue into one slot of a linked outline in order: links,
/// order and keys stay, and the contents change at that slot's key alone.
pub proof fn lemma_value_update(
    a: Seq<Node>,
    b: Seq<Node>,
    t: Shape,
    parent: Option<usize>,
    lo: int,
    hi: int,
    slot: usize,
)
    requires
        linked(a, t, parent),
        t.distinct(),
        ordered(a, t, lo, hi),
        t.slots().contains(slot),
        b.len() == a.len(),
        forall|i: int| 0 <= i < a.len() && i != slot ==> b[i] == a[i],
        same_links(a[slot as int], b[slot as int]),
        b[slot as int].key == a[slot as int].key,
    ensures
        linked(b, t, parent),
        ordered(b, t, lo, hi),
        key_list(b, t) == key_list(a, t),
        contents(b, t) == contents(a, t).insert(a[slot as int].key, b[slot as int].value@),
    decreases t,
{
    lemma_linked_housed(a, t, parent);
    lemma_linked_frame(a, b, t, parent);
    lemma_key_frame(a, b, t);
    if let Shape::Fork { left, at, right } = t {
        let key = a[at as int].key;
        let cl = contents(a, *left);
        let cr = contents(a, *right);
        lemma_linked_housed(a, *left, Some(at));
        lemma_linked_housed(a, *right, Some(at));
        lemma_ordered(a, *left, lo, key as int);
        lemma_ordered(a, *right, key as int, hi);
        if at == slot {
            lemma_data_frame(a, b, *left);
            lemma_data_frame(a, b, *right);
            assert(contents(b, t) =~= contents(a, t).insert(key, b[slot as int].value@));
        } else if left.slots().contains(slot) {
            lemma_value_update(a, b, *left, Some(at), lo, key as int, slot);
            lemma_data_frame(a, b, *right);
            lemma_slot(a, *left, Some(at), lo, key as int, slot);
            lemma_write_left(cl, cr, key, a[at as int].value@, a[slot as int].key, b[slot as int].value@);
        } else {
            lemma_value_update(a, b, *right, Some(at), key as int, hi, slot);
            lemma_data_frame(a, b, *left);
            lemma_slot(a, *right, Some(at), key as int, hi, slot);
            lemma_write_right(cl, cr, key, a[at as int].value@, a[slot as int].key, b[slot as int].value@);
        }
    }
}

} // verus!
