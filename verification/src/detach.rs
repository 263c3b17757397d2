//! Taking a node out of a tree: with at most one child, the child takes its
//! place; with two, its successor does.

use vstd::prelude::*;
use crate::climb::{
    Frame, Change, balance_stack, descends, goes_on, kept, settled, passed, place_below, upper_end,
    rebuilt, top_of,
};
use crate::links::{
    Node, linked, joined, ordered, contents, same_links, same_outside, lemma_linked_housed,
    lemma_data_frame, lemma_balance_data, lemma_ordered, lemma_joined_housed, lemma_linked_reparent,
    lemma_ordered_widen, lemma_ordered_tighten, lemma_erase_top, lemma_slot,
};
use crate::order::Price;
use crate::rotate::balance;
use crate::shape::{Shape, lemma_mend, lemma_fork, lemma_top};

verus! {

/// Takes the node on top of a place out of the tree and puts its only
/// child, if it has one, in its place. The node must not have two children.
/// Returns the link to the child. The links held at the node are left as
/// they were.
pub(crate) fn replace_with_child(
    nodes: &mut Vec<Node>,
    top: usize,
    parent: Option<usize>,
    Ghost(place): Ghost<Frame>,
    Ghost(used): Ghost<Set<usize>>,
) -> (child: (Option<usize>, Ghost<Shape>))
    requires
        settled(old(nodes)@, place, old(nodes)@[top as int].key, used),
        place.outline.root() == Some(top),
        place.parent == parent,
        place.outline.left() is Leaf || place.outline.right() is Leaf,
    ensures
        rebuilt(
            old(nodes)@,
            final(nodes)@,
            place,
            child.1@,
            Change { key: old(nodes)@[top as int].key, queue: None, slot: top },
            used,
        ),
        child.1@.root() == child.0,
        final(nodes)@[top as int] == old(nodes)@[top as int],
        final(nodes)@.len() == old(nodes)@.len(),
        contents(old(nodes)@, place.outline).contains_key(old(nodes)@[top as int].key),
        contents(old(nodes)@, place.outline)[old(nodes)@[top as int].key]
            == old(nodes)@[top as int].value@,
{
    let ghost start = nodes@;
    let ghost t = place.outline;
    let ghost l = t.left();
    let ghost r = t.right();
    let ghost key = start[top as int].key;
    proof {
        lemma_linked_housed(start, t, parent);
        lemma_fork(l, top, r);
        assert(t.slots().contains(top));
        assert(linked(start, l, Some(top)));
        assert(linked(start, r, Some(top)));
        lemma_ordered(start, l, place.lo, key as int);
        lemma_ordered(start, r, key as int, place.hi);
        lemma_erase_top(contents(start, l), contents(start, r), key, start[top as int].value@, key);
    }
    let link = match nodes[top].left {
        Some(child) => Some(child),
        None => nodes[top].right,
    };
    let ghost rest = if l is Fork {
        l
    } else {
        r
    };
    if let Some(child) = link {
        nodes[child].parent = parent;
    }
    proof {
        lemma_linked_reparent(start, nodes@, rest, Some(top), parent);
        lemma_linked_housed(start, rest, Some(top));
        lemma_data_frame(start, nodes@, rest);
        if l is Fork {
            lemma_ordered_widen(start, l, place.lo, key as int, place.lo, place.hi);
        } else {
            lemma_ordered_widen(start, r, key as int, place.hi, place.lo, place.hi);
        }
        assert(t.slots().remove(top) =~= rest.slots());
        assert(rest.slots().union(t.slots()) =~= t.slots());
    }
    (link, Ghost(rest))
}

/// Whether a frame holds a linked, balanced fork in search order within its
/// bounds, made of slots of `within`.
pub open spec fn sound(nodes: Seq<Node>, frame: Frame, within: Shape) -> bool {
    &&& frame.outline is Fork
    &&& linked(nodes, frame.outline, frame.parent)
    &&& frame.outline.distinct()
    &&& frame.outline.balanced()
    &&& ordered(nodes, frame.outline, frame.lo, frame.hi)
    &&& frame.outline.slots().subset_of(within.slots())
}

/// The place below the node on top of `frame` on its left.
pub open spec fn left_below(nodes: Seq<Node>, frame: Frame) -> Frame {
    Frame {
        outline: frame.outline.left(),
        parent: Some(top_of(frame)),
        lo: frame.lo,
        hi: nodes[top_of(frame) as int].key as int,
    }
}

/// A sound frame was passed on the way to any slot that hangs on its left,
/// and the way went on to the left.
proof fn lemma_passed_left(
    nodes: Seq<Node>,
    frame: Frame,
    within: Shape,
    used: Set<usize>,
    slot: usize,
)
    requires
        sound(nodes, frame, within),
        within.slots().subset_of(used),
        frame.outline.left().slots().contains(slot),
    ensures
        passed(nodes, frame, nodes[slot as int].key, used),
        place_below(nodes, frame, nodes[slot as int].key) == left_below(nodes, frame),
{
    let at = top_of(frame);
    lemma_fork(frame.outline.left(), at, frame.outline.right());
    assert(linked(nodes, frame.outline.left(), Some(at)));
    lemma_slot(nodes, frame.outline.left(), Some(at), frame.lo, nodes[at as int].key as int, slot);
}

/// Whether `frames`, ending at `here`, is the trail of a walk to the left.
pub open spec fn leftward(nodes: Seq<Node>, frames: Seq<Frame>, here: Frame, within: Shape) -> bool {
    &&& forall|k: int|
        0 <= k < frames.len() ==> sound(nodes, #[trigger] frames[k], within)
            && here.outline.slots().subset_of(frames[k].outline.left().slots())
    &&& forall|k: int| 0 < k < frames.len() ==> #[trigger] goes_left(nodes, frames, k)
    &&& frames.len() > 0 ==> here == left_below(nodes, frames.last())
}

/// Whether the frame at `index` lies below the one before it on the left.
pub open spec fn goes_left(nodes: Seq<Node>, frames: Seq<Frame>, index: int) -> bool {
    frames[index] == left_below(nodes, frames[index - 1])
}

/// A walk to the left goes on to the left.
proof fn lemma_leftward_step(nodes: Seq<Node>, frames: Seq<Frame>, here: Frame, within: Shape)
    requires
        leftward(nodes, frames, here, within),
        sound(nodes, here, within),
    ensures
        leftward(nodes, frames.push(here), left_below(nodes, here), within),
{
    let longer = frames.push(here);
    let below = left_below(nodes, here);
    lemma_fork(here.outline.left(), top_of(here), here.outline.right());
    assert(below.outline.slots().subset_of(here.outline.slots()));
    assert forall|k: int| 0 <= k < longer.len() implies sound(nodes, #[trigger] longer[k], within)
        && below.outline.slots().subset_of(longer[k].outline.left().slots()) by {
        if k < frames.len() {
            assert(longer[k] == frames[k]);
        }
    }
    assert forall|k: int| 0 < k < longer.len() implies #[trigger] goes_left(nodes, longer, k) by {
        assert(longer[k - 1] == frames[k - 1]);
        if k < frames.len() {
            assert(goes_left(nodes, frames, k));
            assert(longer[k] == frames[k]);
        }
    }
}

/// The trail of a walk to the left is the trail of a descent toward the
/// key of any slot of the place where the walk ends.
proof fn lemma_leftward_descends(
    nodes: Seq<Node>,
    frames: Seq<Frame>,
    here: Frame,
    within: Shape,
    used: Set<usize>,
    slot: usize,
)
    requires
        leftward(nodes, frames, here, within),
        within.slots().subset_of(used),
        here.outline.slots().contains(slot),
    ensures
        descends(nodes, frames, nodes[slot as int].key, used),
        frames.len() > 0 ==> here == place_below(nodes, frames.last(), nodes[slot as int].key),
        forall|k: int| 0 <= k < frames.len() ==> within.slots().contains(top_of(#[trigger] frames[k])),
{
    let key = nodes[slot as int].key;
    assert forall|k: int| 0 <= k < frames.len() implies passed(nodes, #[trigger] frames[k], key, used)
        && within.slots().contains(top_of(frames[k])) by {
        lemma_passed_left(nodes, frames[k], within, used, slot);
        lemma_fork(frames[k].outline.left(), top_of(frames[k]), frames[k].outline.right());
        assert(frames[k].outline.slots().contains(top_of(frames[k])));
    }
    assert forall|k: int| 0 < k < frames.len() implies #[trigger] goes_on(nodes, frames, k, key) by {
        assert(goes_left(nodes, frames, k));
        lemma_passed_left(nodes, frames[k - 1], within, used, slot);
    }
    if frames.len() > 0 {
        lemma_passed_left(nodes, frames.last(), within, used, slot);
    }
}

/// Walks from the right child of `top` down to the left as far as it goes,
/// and leaves a frame for each node passed. Finds the successor of `top`:
/// the node with the least key in what hangs on its right.
pub(crate) fn min_under_right(
    nodes: &Vec<Node>,
    top: usize,
    Ghost(place): Ghost<Frame>,
    Ghost(used): Ghost<Set<usize>>,
) -> (least: (usize, Ghost<Seq<Frame>>, Ghost<Frame>))
    requires
        settled(nodes@, place, nodes@[top as int].key, used),
        place.outline.root() == Some(top),
        place.outline.right() is Fork,
    ensures
        descends(nodes@, least.1@, nodes@[least.0 as int].key, used),
        settled(nodes@, least.2@, nodes@[least.0 as int].key, used),
        least.1@.len() > 0 ==> least.2@ == place_below(
            nodes@,
            least.1@.last(),
            nodes@[least.0 as int].key,
        ),
        upper_end(least.1@, least.2@) == (Frame {
            outline: place.outline.right(),
            parent: Some(top),
            lo: nodes@[top as int].key as int,
            hi: place.hi,
        }),
        forall|k: int| 0 <= k < least.1@.len() ==> top_of(#[trigger] least.1@[k]) != top,
        least.2@.outline.root() == Some(least.0),
        least.2@.outline.left() is Leaf,
        place.outline.right().slots().contains(least.0),
        least.0 != top,
        least.0 < nodes@.len(),
        forall|k: Price|
            contents(nodes@, place.outline.right()).contains_key(k) ==> nodes@[least.0 as int].key <= k,
{
    let ghost all = nodes@;
    let ghost right = place.outline.right();
    let ghost top_key = all[top as int].key;
    let ghost first = Frame { outline: right, parent: Some(top), lo: top_key as int, hi: place.hi };
    let ghost mut frames: Seq<Frame> = Seq::empty();
    let ghost mut here = first;
    proof {
        lemma_linked_housed(all, place.outline, place.parent);
        lemma_fork(place.outline.left(), top, right);
        assert(place.outline.slots().contains(top));
        assert(linked(all, right, Some(top)));
        lemma_linked_housed(all, right, Some(top));
    }
    let mut current = nodes[top].right.unwrap();
    loop
        invariant
            all == nodes@,
            upper_end(frames, here) == first,
            leftward(all, frames, here, right),
            sound(all, here, right),
            here.outline.root() == Some(current),
            here.lo == first.lo,
            right.slots().subset_of(used),
            forall|i: usize| right.slots().contains(i) ==> i < all.len(),
            forall|k: Price|
                contents(all, right).contains_key(k) ==> contents(all, here.outline).contains_key(k)
                    || here.hi <= k,
        ensures
            here.outline.left() is Leaf,
        decreases here.outline.height(),
    {
        let ghost l = here.outline.left();
        let ghost r = here.outline.right();
        proof {
            lemma_fork(l, current, r);
            assert(here.outline.slots().contains(current));
            assert(linked(all, l, Some(current)));
        }
        let next = match nodes[current].left {
            None => {
                break ;
            },
            Some(next) => next,
        };
        proof {
            let key = all[current as int].key;
            lemma_ordered(all, l, here.lo, key as int);
            lemma_ordered(all, r, key as int, here.hi);
            lemma_leftward_step(all, frames, here, right);
            assert(l.slots().subset_of(here.outline.slots()));
            frames = frames.push(here);
            here = left_below(all, here);
        }
        current = next;
    }
    proof {
        let key = all[current as int].key;
        let l = here.outline.left();
        let r = here.outline.right();
        lemma_fork(l, current, r);
        lemma_ordered(all, r, key as int, here.hi);
        assert(here.outline.slots().contains(current));
        lemma_leftward_descends(all, frames, here, right, used, current);
        assert(!right.slots().contains(top));
        assert(l is Leaf);
        assert forall|k: Price| contents(all, right).contains_key(k) implies key <= k by {
            if contents(all, here.outline).contains_key(k) {
                assert(k == key || contents(all, r).contains_key(k));
            }
        }
    }
    (current, Ghost(frames), Ghost(here))
}

/// The place of what hangs on the right of the node on top of `place`.
pub open spec fn right_place(nodes: Seq<Node>, place: Frame) -> Frame {
    Frame {
        outline: place.outline.right(),
        parent: Some(top_of(place)),
        lo: nodes[top_of(place) as int].key as int,
        hi: place.hi,
    }
}

/// The change that takes the node at `slot` out.
pub open spec fn taking_out(nodes: Seq<Node>, slot: usize) -> Change {
    Change { key: nodes[slot as int].key, queue: None, slot }
}

/// Putting the successor in the place of a node with two children.
///
/// `start` holds the outline of `place`, with the node to go on top; `mid`
/// holds what is left of its right side after the successor `heir` was cut
/// out; `set` is `mid` with the successor given the left side, the rest of
/// the right side and the parent of the node that goes. Then `set` holds
/// the fork of the left side, the successor and the rest of the right side,
/// but for the height at its top, and that fork holds what the outline
/// held without the level of the node that goes.
proof fn lemma_graft(
    start: Seq<Node>,
    mid: Seq<Node>,
    set: Seq<Node>,
    place: Frame,
    heir: usize,
    rest: Shape,
    used: Set<usize>,
)
    requires
        settled(start, place, start[top_of(place) as int].key, used),
        place.outline.left() is Fork,
        place.outline.right() is Fork,
        forall|i: usize| used.contains(i) ==> i < start.len(),
        place.outline.right().slots().contains(heir),
        forall|k: Price|
            contents(start, place.outline.right()).contains_key(k) ==> start[heir as int].key <= k,
        rebuilt(start, mid, right_place(start, place), rest, taking_out(start, heir), used),
        set.len() == mid.len(),
        forall|i: usize|
            i < mid.len() && i != heir && Some(i) != place.outline.left().root() && Some(i)
                != rest.root() ==> #[trigger] set[i as int] == mid[i as int],
        set[heir as int].key == mid[heir as int].key,
        set[heir as int].value == mid[heir as int].value,
        set[heir as int].parent == place.parent,
        set[heir as int].left == place.outline.left().root(),
        set[heir as int].right == rest.root(),
        place.outline.left().root() matches Some(child) ==> same_links(
            Node { parent: Some(heir), ..mid[child as int] },
            set[child as int],
        ) && set[child as int].key == mid[child as int].key && set[child as int].value
            == mid[child as int].value,
        rest.root() matches Some(child) ==> same_links(
            Node { parent: Some(heir), ..mid[child as int] },
            set[child as int],
        ) && set[child as int].key == mid[child as int].key && set[child as int].value
            == mid[child as int].value,
    ensures
        joined(set, Shape::fork(place.outline.left(), heir, rest), place.parent),
        Shape::fork(place.outline.left(), heir, rest).distinct(),
        Shape::fork(place.outline.left(), heir, rest).level(2),
        place.outline.left().balanced(),
        rest.balanced(),
        ordered(set, Shape::fork(place.outline.left(), heir, rest), place.lo, place.hi),
        contents(set, Shape::fork(place.outline.left(), heir, rest)) == contents(
            start,
            place.outline,
        ).remove(start[top_of(place) as int].key),
        Shape::fork(place.outline.left(), heir, rest).slots() == place.outline.slots().remove(
            top_of(place),
        ),
        same_outside(start, set, place.outline.slots()),
        kept(start, set, taking_out(start, top_of(place))),
        contents(start, place.outline).contains_key(start[top_of(place) as int].key),
        contents(start, place.outline)[start[top_of(place) as int].key] == start[top_of(
            place,
        ) as int].value@,
{
    let top = top_of(place);
    let t = place.outline;
    let l = t.left();
    let r = t.right();
    let key = start[top as int].key;
    let heir_key = start[heir as int].key;
    let cl = contents(start, l);
    let cr = contents(start, r);
    let between = Shape::fork(l, heir, rest);
    lemma_linked_housed(start, t, place.parent);
    lemma_fork(l, top, r);
    lemma_fork(l, heir, rest);
    assert(t.slots().contains(top));
    assert(linked(start, l, Some(top)));
    assert(linked(start, r, Some(top)));
    lemma_linked_housed(start, l, Some(top));
    lemma_linked_housed(start, r, Some(top));
    lemma_linked_housed(mid, rest, Some(top));
    lemma_ordered(start, l, place.lo, key as int);
    lemma_ordered(start, r, key as int, place.hi);
    lemma_slot(start, r, Some(top), key as int, place.hi, heir);
    lemma_erase_top(cl, cr, key, start[top as int].value@, heir_key);
    assert(rest.slots() =~= r.slots().remove(heir));
    assert forall|i: usize| l.slots().contains(i) implies !r.slots().contains(i) && i != heir && i
        != top && !rest.slots().contains(i) && mid[i as int] == start[i as int] by {
        assert(t.slots().contains(i));
    }
    assert(l.slots().disjoint(rest.slots()));
    assert(between.distinct());
    assert forall|i: usize|
        l.slots().contains(i) && i < start.len() && Some(i) != l.root() implies same_links(
        start[i as int],
        #[trigger] set[i as int],
    ) by {
        assert(mid[i as int] == start[i as int]);
        if rest.root() == Some(i) {
            lemma_top(rest);
        }
    }
    lemma_top(l);
    if rest is Fork {
        lemma_top(rest);
    }
    lemma_linked_reparent(start, set, l, Some(top), Some(heir));
    assert forall|i: usize|
        rest.slots().contains(i) && i < mid.len() && Some(i) != rest.root() implies same_links(
        mid[i as int],
        #[trigger] set[i as int],
    ) by {
        assert(r.slots().contains(i));
    }
    lemma_linked_reparent(mid, set, rest, Some(top), Some(heir));
    assert forall|i: usize| l.slots().contains(i) && i < start.len() implies (#[trigger] set[i as int])
        .key == start[i as int].key && set[i as int].value@ == start[i as int].value@ by {
        assert(mid[i as int] == start[i as int]);
    }
    lemma_data_frame(start, set, l);
    assert forall|i: usize| rest.slots().contains(i) && i < mid.len() implies (#[trigger] set[i as int])
        .key == mid[i as int].key && set[i as int].value@ == mid[i as int].value@ by {
        assert(r.slots().contains(i));
    }
    lemma_data_frame(mid, set, rest);
    lemma_ordered_widen(start, l, place.lo, key as int, place.lo, heir_key as int);
    lemma_ordered(mid, rest, key as int, place.hi);
    assert forall|k: Price| contents(mid, rest).contains_key(k) implies heir_key < k < place.hi by {
        assert(cr.contains_key(k));
    }
    lemma_ordered_tighten(mid, rest, key as int, place.hi, heir_key as int, place.hi);
    assert(set[heir as int].key == heir_key);
    assert(ordered(set, l, place.lo, heir_key as int));
    assert(ordered(set, rest, heir_key as int, place.hi));
    assert(between.slots() =~= t.slots().remove(top));
    assert(contents(set, between) =~= cl.union_prefer_right(cr));
    assert forall|i: usize| i < start.len() && !t.slots().contains(i) implies #[trigger] set[i as int]
        == start[i as int] by {
        assert(mid[i as int] == start[i as int]);
        if l.root() == Some(i) || rest.root() == Some(i) {
            assert(t.slots().contains(i));
        }
    }
    assert forall|i: usize| i < start.len() implies (#[trigger] set[i as int]).key
        == start[i as int].key && set[i as int].value == start[i as int].value by {
        assert(mid[i as int].key == start[i as int].key && mid[i as int].value
            == start[i as int].value);
    }
}

/// Takes the node on top of a place, which has two children, out of the
/// tree and puts its successor in its place: the successor is cut out
/// where it stands, the forks from there up to the right child of the node
/// are put level again, and the successor takes over the node's left side,
/// the rest of its right side and its parent. Returns the slot that stands
/// on top afterwards. The links held at the node are left as they were.
pub(crate) fn promote_successor(
    nodes: &mut Vec<Node>,
    top: usize,
    parent: Option<usize>,
    Ghost(place): Ghost<Frame>,
    Ghost(used): Ghost<Set<usize>>,
) -> (risen: (Option<usize>, Ghost<Shape>))
    requires
        settled(old(nodes)@, place, old(nodes)@[top as int].key, used),
        place.outline.root() == Some(top),
        place.parent == parent,
        place.outline.left() is Fork,
        place.outline.right() is Fork,
        forall|i: usize| used.contains(i) ==> i < old(nodes)@.len(),
    ensures
        rebuilt(old(nodes)@, final(nodes)@, place, risen.1@, taking_out(old(nodes)@, top), used),
        risen.1@.root() == risen.0,
        contents(old(nodes)@, place.outline).contains_key(old(nodes)@[top as int].key),
        contents(old(nodes)@, place.outline)[old(nodes)@[top as int].key]
            == old(nodes)@[top as int].value@,
{
    let ghost start = nodes@;
    let ghost l = place.outline.left();
    proof {
        lemma_linked_housed(start, place.outline, parent);
        lemma_fork(l, top, place.outline.right());
        assert(place.outline.slots().contains(top));
        assert(linked(start, l, Some(top)));
    }
    let (heir, Ghost(trail), Ghost(spot)) = min_under_right(nodes, top, Ghost(place), Ghost(used));
    let heir_parent = nodes[heir].parent;
    let heir_key = nodes[heir].key;
    let (below, Ghost(orphan)) = replace_with_child(nodes, heir, heir_parent, Ghost(spot), Ghost(used));
    let (right_top, Ghost(rest)) = balance_stack(
        nodes,
        heir_key,
        below,
        heir_parent,
        Some(top),
        Ghost(start),
        Ghost(trail),
        Ghost(spot),
        Ghost(orphan),
        Ghost(taking_out(start, heir)),
        Ghost(used),
    );
    let ghost mid = nodes@;
    proof {
        lemma_linked_housed(mid, rest, Some(top));
        assert(rest.slots() =~= place.outline.right().slots().remove(heir));
        assert(!rest.slots().contains(top));
        assert(!place.outline.right().slots().contains(top));
        assert(mid[top as int] == start[top as int]);
        lemma_top(l);
        assert forall|i: usize| l.slots().contains(i) implies mid[i as int] == start[i as int] by {
            assert(place.outline.slots().contains(i));
            assert(!place.outline.right().slots().contains(i));
        }
    }
    let left_child = nodes[top].left.unwrap();
    nodes[heir].left = Some(left_child);
    nodes[left_child].parent = Some(heir);
    nodes[heir].right = right_top;
    if let Some(child) = right_top {
        nodes[child].parent = Some(heir);
    }
    nodes[heir].parent = parent;
    let ghost set = nodes@;
    let ghost between = Shape::fork(l, heir, rest);
    proof {
        if rest is Fork {
            lemma_top(rest);
        }
        lemma_graft(start, mid, set, place, heir, rest, used);
        lemma_joined_housed(set, between, parent);
        lemma_mend(between);
        lemma_fork(l, heir, rest);
        lemma_fork(l, top, place.outline.right());
    }
    let riser = balance(nodes, heir, Ghost(between), Ghost(parent));
    proof {
        lemma_balance_data(set, nodes@, between, place.lo, place.hi);
        assert(between.mend().slots().union(place.outline.slots()) =~= place.outline.slots());
    }
    (Some(riser), Ghost(between.mend()))
}

} // verus!
