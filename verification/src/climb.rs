//! The way back up: from the place where a tree was changed to its root.
//!
//! A descent leaves a trail of frames, one for each node passed. After the
//! bottom of the trail has been rebuilt, `balance_stack` climbs the trail:
//! it hangs what was rebuilt under the node of each frame, puts that fork
//! level again, and goes on with the node's parent.

use vstd::prelude::*;
use crate::links::{
    Node, linked, ordered, contents, same_outside, lemma_stitch_left, lemma_stitch_right,
    lemma_balance_data, lemma_ordered, lemma_write_left, lemma_write_right, lemma_erase_left,
    lemma_erase_right, lemma_linked_housed,
};
use crate::order::{OrderView, Price};
use crate::rotate::balance;
use crate::shape::{Shape, lemma_mend, lemma_fork};

verus! {

/// A place in a tree: the outline that hangs there, the slot it hangs
/// under, and the bounds that every key there lies between.
pub struct Frame {
    pub outline: Shape,
    pub parent: Option<usize>,
    pub lo: int,
    pub hi: int,
}

/// The slot on top of the outline of a frame.
pub open spec fn top_of(frame: Frame) -> usize {
    frame.outline.root().unwrap()
}

/// Whether `key` lies left of the node on top of `frame`.
pub open spec fn leans_left(nodes: Seq<Node>, frame: Frame, key: Price) -> bool {
    key < nodes[top_of(frame) as int].key
}

/// The place below the node on top of `frame` on the side where `key` lies.
pub open spec fn place_below(nodes: Seq<Node>, frame: Frame, key: Price) -> Frame {
    if leans_left(nodes, frame, key) {
        Frame {
            outline: frame.outline.left(),
            parent: Some(top_of(frame)),
            lo: frame.lo,
            hi: nodes[top_of(frame) as int].key as int,
        }
    } else {
        Frame {
            outline: frame.outline.right(),
            parent: Some(top_of(frame)),
            lo: nodes[top_of(frame) as int].key as int,
            hi: frame.hi,
        }
    }
}

/// Whether a place holds a linked, balanced outline in search order within
/// its bounds, made of slots in use, and `key` lies within the bounds.
pub open spec fn settled(nodes: Seq<Node>, place: Frame, key: Price, used: Set<usize>) -> bool {
    &&& linked(nodes, place.outline, place.parent)
    &&& place.outline.distinct()
    &&& place.outline.balanced()
    &&& ordered(nodes, place.outline, place.lo, place.hi)
    &&& place.lo < key < place.hi
    &&& place.outline.slots().subset_of(used)
}

/// Whether a frame is a settled place with a node on top whose key is not `key`.
pub open spec fn passed(nodes: Seq<Node>, frame: Frame, key: Price, used: Set<usize>) -> bool {
    &&& settled(nodes, frame, key, used)
    &&& frame.outline is Fork
    &&& key != nodes[top_of(frame) as int].key
}

/// Whether `frames` is the trail of a descent toward `key`: every frame was
/// passed, and each lies below the one before it on the side of `key`.
pub open spec fn descends(nodes: Seq<Node>, frames: Seq<Frame>, key: Price, used: Set<usize>) -> bool {
    &&& forall|k: int| 0 <= k < frames.len() ==> passed(nodes, #[trigger] frames[k], key, used)
    &&& forall|k: int| 0 < k < frames.len() ==> #[trigger] goes_on(nodes, frames, k, key)
}

/// Whether the frame at `index` lies below the one before it on the side of `key`.
pub open spec fn goes_on(nodes: Seq<Node>, frames: Seq<Frame>, index: int, key: Price) -> bool {
    frames[index] == place_below(nodes, frames[index - 1], key)
}

/// What a change at `key` makes of price levels: with a queue, the level at
/// `key` holds that queue; without, there is no level at `key`.
pub open spec fn changed(
    levels: Map<Price, Seq<OrderView>>,
    key: Price,
    queue: Option<Seq<OrderView>>,
) -> Map<Price, Seq<OrderView>> {
    match queue {
        Some(orders) => levels.insert(key, orders),
        None => levels.remove(key),
    }
}

/// What a change makes of the slots of an outline: with a queue, `slot`
/// joins them; without, `slot` leaves them.
pub open spec fn reslotted(
    slots: Set<usize>,
    queue: Option<Seq<OrderView>>,
    slot: usize,
) -> Set<usize> {
    match queue {
        Some(_) => slots.insert(slot),
        None => slots.remove(slot),
    }
}

/// A change to a tree: the key it is about, the queue that the level at the
/// key holds afterwards, if there is to be such a level, and the slot that
/// joins or leaves the tree.
pub struct Change {
    pub key: Price,
    pub queue: Option<Seq<OrderView>>,
    pub slot: usize,
}

/// Whether `sub`, in the arena `now`, is what `change` makes of the outline
/// at `place` in the arena `start`: linked under the same parent, balanced,
/// in order within the same bounds, holding the changed levels at the
/// changed slots, at most one higher or lower; and the arena is as it was
/// at every other slot.
pub open spec fn rebuilt(
    start: Seq<Node>,
    now: Seq<Node>,
    place: Frame,
    sub: Shape,
    change: Change,
    used: Set<usize>,
) -> bool {
    &&& linked(now, sub, place.parent)
    &&& sub.distinct()
    &&& sub.balanced()
    &&& ordered(now, sub, place.lo, place.hi)
    &&& contents(now, sub) == changed(contents(start, place.outline), change.key, change.queue)
    &&& place.outline.height() <= sub.height() + 1
    &&& sub.height() <= place.outline.height() + 1
    &&& sub.slots() == reslotted(place.outline.slots(), change.queue, change.slot)
    &&& change.queue is Some ==> !used.contains(change.slot)
    &&& change.queue is None ==> place.outline.slots().contains(change.slot)
    &&& same_outside(start, now, sub.slots().union(place.outline.slots()))
    &&& kept(start, now, change)
}

/// Whether every node of the arena `start` holds in the arena `now` the key
/// and the queue that it held, but for the node at a slot that joins.
pub open spec fn kept(start: Seq<Node>, now: Seq<Node>, change: Change) -> bool {
    forall|i: usize|
        i < start.len() && !(change.queue is Some && i == change.slot) ==> (#[trigger] now[i as int]).key
            == start[i as int].key && now[i as int].value == start[i as int].value
}

/// The place at the upper end of a trail that ends at `place`.
pub open spec fn upper_end(frames: Seq<Frame>, place: Frame) -> Frame {
    if frames.len() > 0 {
        frames[0]
    } else {
        place
    }
}

/// Hangs what was rebuilt below the node on top of `frame`, on the side of
/// `key`, and puts the fork level again. Returns the slot that stands on
/// top afterwards, and the outline.
pub(crate) fn hang_and_balance(
    nodes: &mut Vec<Node>,
    key: Price,
    link: Option<usize>,
    at: usize,
    Ghost(start): Ghost<Seq<Node>>,
    Ghost(frame): Ghost<Frame>,
    Ghost(sub): Ghost<Shape>,
    Ghost(change): Ghost<Change>,
    Ghost(used): Ghost<Set<usize>>,
) -> (risen: (usize, Ghost<Shape>))
    requires
        passed(start, frame, key, used),
        top_of(frame) == at,
        change.key == key,
        forall|i: usize| used.contains(i) ==> i < start.len(),
        rebuilt(start, old(nodes)@, place_below(start, frame, key), sub, change, used),
        sub.root() == link,
    ensures
        rebuilt(start, final(nodes)@, frame, risen.1@, change, used),
        risen.1@.root() == Some(risen.0),
{
    let ghost queue = change.queue;
    let ghost here = place_below(start, frame, key);
    let ghost t = frame.outline;
    let ghost l = t.left();
    let ghost r = t.right();
    let ghost mid = nodes@;
    let ghost top_key = start[at as int].key;
    let ghost queue_at = start[at as int].value@;
    let ghost cl = contents(start, l);
    let ghost cr = contents(start, r);
    proof {
        lemma_linked_housed(start, t, frame.parent);
        lemma_linked_housed(mid, sub, Some(at));
        assert(t.slots().contains(at));
        assert(!here.outline.slots().contains(at));
        assert(!sub.slots().contains(at));
        assert(here.outline.slots().subset_of(t.slots()));
        assert forall|i: usize| sub.slots().contains(i) implies here.outline.slots().contains(i)
            || !used.contains(i) by {}
        assert(mid[at as int] == start[at as int]);
        lemma_fork(l, at, r);
        lemma_ordered(start, l, frame.lo, top_key as int);
        lemma_ordered(start, r, top_key as int, frame.hi);
    }
    if key < nodes[at].key {
        nodes[at].left = link;
        let ghost set = nodes@;
        let ghost between = Shape::fork(sub, at, r);
        proof {
            assert(sub.slots().union(l.slots()) =~= sub.slots().union(here.outline.slots()));
            lemma_stitch_left(start, mid, set, t, sub, frame.parent, used, frame.lo, frame.hi);
            lemma_fork(sub, at, r);
            match queue {
                Some(orders) => lemma_write_left(cl, cr, top_key, queue_at, key, orders),
                None => lemma_erase_left(cl, cr, top_key, queue_at, key),
            }
            lemma_mend(between);
        }
        let riser = balance(nodes, at, Ghost(between), Ghost(frame.parent));
        proof {
            lemma_balance_data(set, nodes@, between, frame.lo, frame.hi);
            assert(between.mend().slots().union(t.slots()) =~= between.slots().union(t.slots()));
            assert(between.slots() =~= reslotted(t.slots(), queue, change.slot));
        }
        (riser, Ghost(between.mend()))
    } else {
        nodes[at].right = link;
        let ghost set = nodes@;
        let ghost between = Shape::fork(l, at, sub);
        proof {
            assert(sub.slots().union(r.slots()) =~= sub.slots().union(here.outline.slots()));
            lemma_stitch_right(start, mid, set, t, sub, frame.parent, used, frame.lo, frame.hi);
            lemma_fork(l, at, sub);
            match queue {
                Some(orders) => lemma_write_right(cl, cr, top_key, queue_at, key, orders),
                None => lemma_erase_right(cl, cr, top_key, queue_at, key),
            }
            lemma_mend(between);
        }
        let riser = balance(nodes, at, Ghost(between), Ghost(frame.parent));
        proof {
            lemma_balance_data(set, nodes@, between, frame.lo, frame.hi);
            assert(between.mend().slots().union(t.slots()) =~= between.slots().union(t.slots()));
            assert(between.slots() =~= reslotted(t.slots(), queue, change.slot));
        }
        (riser, Ghost(between.mend()))
    }
}

/// Climbs the trail `frames` from the place that was rebuilt up to the slot
/// `stop`: at each node on the way, hangs what was rebuilt below it on the
/// side of `key`, puts the fork level again, and goes on with the parent.
/// Returns the link to what stands at the upper end of the trail.
pub(crate) fn balance_stack(
    nodes: &mut Vec<Node>,
    key: Price,
    link: Option<usize>,
    parent: Option<usize>,
    stop: Option<usize>,
    Ghost(start): Ghost<Seq<Node>>,
    Ghost(frames): Ghost<Seq<Frame>>,
    Ghost(place): Ghost<Frame>,
    Ghost(sub): Ghost<Shape>,
    Ghost(change): Ghost<Change>,
    Ghost(used): Ghost<Set<usize>>,
) -> (risen: (Option<usize>, Ghost<Shape>))
    requires
        descends(start, frames, key, used),
        frames.len() > 0 ==> place == place_below(start, frames.last(), key),
        upper_end(frames, place).parent == stop,
        forall|k: int| 0 <= k < frames.len() ==> Some(top_of(#[trigger] frames[k])) != stop,
        forall|i: usize| used.contains(i) ==> i < start.len(),
        change.key == key,
        rebuilt(start, old(nodes)@, place, sub, change, used),
        sub.root() == link,
        place.parent == parent,
    ensures
        rebuilt(start, final(nodes)@, upper_end(frames, place), risen.1@, change, used),
        risen.1@.root() == risen.0,
{
    let mut current = link;
    let mut above = parent;
    let ghost mut left: int = frames.len() as int;
    let ghost mut here = place;
    let ghost mut grown = sub;
    loop
        invariant_except_break
            0 <= left <= frames.len(),
            here == if left < frames.len() {
                frames[left]
            } else {
                place
            },
        invariant
            descends(start, frames, key, used),
            frames.len() > 0 ==> place == place_below(start, frames.last(), key),
            upper_end(frames, place).parent == stop,
            forall|k: int| 0 <= k < frames.len() ==> Some(top_of(#[trigger] frames[k])) != stop,
            forall|i: usize| used.contains(i) ==> i < start.len(),
            change.key == key,
            rebuilt(start, nodes@, here, grown, change, used),
            grown.root() == current,
            here.parent == above,
        ensures
            here == upper_end(frames, place),
        decreases left,
    {
        let arrived = match (above, stop) {
            (None, None) => true,
            (Some(reached), Some(end)) => reached == end,
            _ => false,
        };
        if arrived {
            proof {
                if left > 0 {
                    let frame = frames[left - 1];
                    assert(passed(start, frame, key, used));
                    assert(Some(top_of(frame)) != stop);
                    if left < frames.len() {
                        assert(goes_on(start, frames, left, key));
                    } else {
                        assert(frames.last() == frame);
                    }
                    assert(here == place_below(start, frame, key));
                    assert(here.parent == Some(top_of(frame)));
                }
            }
            break ;
        }
        let at = match above {
            None => {
                proof {
                    if left > 0 {
                        let frame = frames[left - 1];
                        assert(passed(start, frame, key, used));
                        if left < frames.len() {
                            assert(goes_on(start, frames, left, key));
                        } else {
                            assert(frames.last() == frame);
                        }
                        assert(here == place_below(start, frame, key));
                    }
                }
                break ;
            },
            Some(at) => at,
        };
        let ghost frame = frames[left - 1];
        proof {
            if left == 0 {
                assert(here == upper_end(frames, place));
            }
            assert(passed(start, frame, key, used));
            if left < frames.len() {
                assert(goes_on(start, frames, left, key));
            } else {
                assert(frames.last() == frame);
            }
            assert(here == place_below(start, frame, key));
        }
        let (riser, Ghost(outline)) = hang_and_balance(
            nodes,
            key,
            current,
            at,
            Ghost(start),
            Ghost(frame),
            Ghost(grown),
            Ghost(change),
            Ghost(used),
        );
        proof {
            left = left - 1;
            here = frame;
            grown = outline;
        }
        current = Some(riser);
        above = nodes[riser].parent;
    }
    (current, Ghost(grown))
}

} // verus!
