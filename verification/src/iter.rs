//! Walking a tree in key order, forwards or backwards, by way of the
//! parent links.

use vstd::prelude::*;
use crate::audit::{
    links_pass, levels_pass, order_pass, count_nodes, fault, links_fault, levels_fault, order_fault,
    count_fault,
};
use crate::avl_tree::{AVLTree, Branch, floor, ceiling};
use crate::display::texts;
use crate::links::{Node, key_list, lemma_slot, lemma_ordered};

use crate::shape::{place, lemma_below_child, lemma_top, lemma_below, lemma_shape_size, lemma_fork};

verus! {

impl AVLTree {
    /// How the node at `slot` hangs under its parent: as its left child, as
    /// its right child, or not at all, being the root.
    pub fn get_parentage(&self, slot: usize) -> (branch: Branch)
        requires
            self.wf(),
            self.live(slot),
        ensures
            match branch {
                Branch::Root => self.node(slot).parent is None && self.root_link() == Some(slot),
                Branch::Left => self.node(slot).parent matches Some(above) && self.live(above)
                    && self.node(above).left == Some(slot),
                Branch::Right => self.node(slot).parent matches Some(above) && self.live(above)
                    && self.node(above).right == Some(slot),
            },
    {
        proof {
            self.lemma_wf();
            self.lemma_names();
            lemma_slot(self.nodes@, self.shape@, None, floor(), ceiling(), slot);
        }
        match self.nodes[slot].parent {
            None => Branch::Root,
            Some(above) => {
                proof {
                    lemma_slot(self.nodes@, self.shape@, None, floor(), ceiling(), above);
                }
                match self.nodes[above].left {
                    Some(child) => if child == slot {
                        Branch::Left
                    } else {
                        Branch::Right
                    },
                    None => Branch::Right,
                }
            },
        }
    }

    /// The height of what hangs below `link`, as the node there holds it;
    /// zero below an empty link.
    pub fn height(&self, link: Option<usize>) -> (height: usize)
        requires
            self.wf(),
            link matches Some(slot) ==> self.live(slot),
        ensures
            height == self.height_below(link),
    {
        proof {
            self.lemma_wf();
            self.lemma_names();
        }
        match link {
            None => 0,
            Some(slot) => {
                proof {
                    lemma_slot(self.nodes@, self.shape@, None, floor(), ceiling(), slot);
                }
                self.nodes[slot].height
            },
        }
    }

    /// The slots on the way from `link` up to the root, both included;
    /// none for an empty link.
    pub fn trace_parentage(&self, link: Option<usize>) -> (path: Vec<usize>)
        requires
            self.wf(),
            link matches Some(slot) ==> self.live(slot),
        ensures
            path@.len() == match link {
                Some(slot) => self.depth_of(slot) + 1,
                None => 0,
            },
            link matches Some(slot) ==> path@[0] == slot && self.root_link() == Some(path@.last()),
            forall|i: int| 0 <= i < path@.len() ==> self.live(#[trigger] path@[i]),
            forall|i: int|
                0 <= i < path@.len() - 1 ==> self.node(#[trigger] path@[i]).parent == Some(path@[i + 1]),
    {
        let ghost t = self.shape@;
        let mut path: Vec<usize> = Vec::new();
        proof {
            self.lemma_wf();
            self.lemma_names();
        }
        let mut current = match link {
            None => {
                return path;
            },
            Some(slot) => slot,
        };
        let ghost start = current;
        loop
            invariant_except_break
                path@.len() + t.depth(current) == t.depth(start),
                path@.len() > 0 ==> path@[0] == start && self.nodes@[path@.last() as int].parent == Some(
                    current,
                ),
                path@.len() == 0 ==> current == start,
            invariant
                self.inv(),
                self.wf(),
                t == self.shape@,
                t.slots().contains(start),
                t.slots().contains(current),
                forall|i: int| 0 <= i < path@.len() ==> t.slots().contains(#[trigger] path@[i]),
                forall|i: int|
                    0 <= i < path@.len() - 1 ==> self.nodes@[(#[trigger] path@[i]) as int].parent == Some(
                        path@[i + 1],
                    ),
            ensures
                path@.len() == t.depth(start) + 1,
                path@[0] == start,
                self.root == Some(path@.last()),
            decreases t.depth(current),
        {
            proof {
                lemma_slot(self.nodes@, t, None, floor(), ceiling(), current);
                if let Some(top) = t.root() {
                    lemma_top(t);
                }
            }
            path.push(current);
            match self.nodes[current].parent {
                None => {
                    break ;
                },
                Some(above) => {
                    proof {
                        lemma_below_child(t, above, current);
                    }
                    current = above;
                },
            }
        }
        path
    }

    /// The number of nodes on the way from `link` up to the root, both
    /// included; zero for an empty link.
    pub fn distance(&self, link: Option<usize>) -> (distance: usize)
        requires
            self.wf(),
            link matches Some(slot) ==> self.live(slot),
        ensures
            distance == match link {
                Some(slot) => self.depth_of(slot) + 1,
                None => 0,
            },
    {
        self.trace_parentage(link).len()
    }

    /// The slot with the least key in what hangs at `top`.
    pub(crate) fn leftmost(&self, top: usize) -> (least: usize)
        requires
            self.inv(),
            self.shape@.slots().contains(top),
        ensures
            self.shape@.slots().contains(least),
            place(self.shape@, least) == self.shape@.offset(top),
    {
        let ghost t = self.shape@;
        let mut current = top;
        proof {
            lemma_slot(self.nodes@, t, None, floor(), ceiling(), top);
        }
        while self.nodes[current].left.is_some()
            invariant
                self.inv(),
                t == self.shape@,
                t.slots().contains(current),
                current < self.nodes@.len(),
                t.offset(current) == t.offset(top),
            decreases t.below(current).height(),
        {
            let next = self.nodes[current].left.unwrap();
            proof {
                lemma_slot(self.nodes@, t, None, floor(), ceiling(), current);
                let sub = t.below(current);
                lemma_fork(sub.left(), current, sub.right());
                lemma_below(t, current);
                lemma_below_child(t, current, next);
                lemma_slot(self.nodes@, t, None, floor(), ceiling(), next);
            }
            current = next;
        }
        proof {
            lemma_slot(self.nodes@, t, None, floor(), ceiling(), current);
            assert(t.below(current).left() is Leaf);
        }
        current
    }

    /// The slot with the greatest key in what hangs at `top`.
    pub(crate) fn rightmost(&self, top: usize) -> (greatest: usize)
        requires
            self.inv(),
            self.shape@.slots().contains(top),
        ensures
            self.shape@.slots().contains(greatest),
            place(self.shape@, greatest) == self.shape@.offset(top) + self.shape@.below(top).size()
                - 1,
    {
        let ghost t = self.shape@;
        let mut current = top;
        proof {
            lemma_slot(self.nodes@, t, None, floor(), ceiling(), top);
        }
        while self.nodes[current].right.is_some()
            invariant
                self.inv(),
                t == self.shape@,
                t.slots().contains(current),
                current < self.nodes@.len(),
                t.offset(current) + t.below(current).size() == t.offset(top) + t.below(top).size(),
            decreases t.below(current).height(),
        {
            let next = self.nodes[current].right.unwrap();
            proof {
                lemma_slot(self.nodes@, t, None, floor(), ceiling(), current);
                let sub = t.below(current);
                lemma_fork(sub.left(), current, sub.right());
                lemma_below(t, current);
                lemma_shape_size(sub.left());
                if sub.left().root() == Some(next) {
                    lemma_top(sub.left());
                    lemma_top(sub.right());
                }
                lemma_below_child(t, current, next);
                lemma_slot(self.nodes@, t, None, floor(), ceiling(), next);
                assert(sub.size() == 1 + sub.left().size() + sub.right().size());
            }
            current = next;
        }
        proof {
            lemma_slot(self.nodes@, t, None, floor(), ceiling(), current);
            let sub = t.below(current);
            assert(sub.right() is Leaf);
            assert(sub.size() == 1 + sub.left().size() + sub.right().size());
        }
        current
    }

    /// Audits the arena of the tree and hands back `error_msgs` with a
    /// message added for each kind of fault found. The audit follows the
    /// child links down from the root and looks whether every node names
    /// the node it hangs under as its parent, whether every node is level
    /// and holds the height that its children give it, whether the keys
    /// are in search order, and whether there are as many nodes as `len`
    /// counts. It needs no well-formed tree; in a well-formed tree it finds
    /// nothing, and the messages come back as given.
    pub fn check_pointer_validity(&self, error_msgs: Vec<String>) -> (messages: Vec<String>)
        ensures
            texts(messages@) == texts(error_msgs@) + self.findings(),
            self.findings().len() == 0 ==> messages == error_msgs,
            self.wf() ==> messages == error_msgs,
    {
        let fuel = self.nodes.len();
        let ghost arena = self.nodes@;
        let ghost given = texts(error_msgs@);
        let mut messages = error_msgs;
        proof {
            self.lemma_names();
            self.lemma_wf();
            if self.wf() {
                self.lemma_sound();
            }
        }
        let links = links_pass(&self.nodes, self.root, None, fuel);
        if !links {
            let ghost earlier = messages@;
            messages.push(
                String::from_str("A node does not name the node that it hangs under as its parent"),
            );
            proof {
                assert(texts(messages@) =~= texts(earlier).push(links_fault()));
            }
        }
        let ghost first = given + fault(links, links_fault());
        assert(texts(messages@) =~= first);
        let levels = levels_pass(&self.nodes, self.root, fuel);
        if !levels {
            let ghost earlier = messages@;
            messages.push(String::from_str("A node is out of balance or holds a wrong height"));
            proof {
                assert(texts(messages@) =~= texts(earlier).push(levels_fault()));
            }
        }
        let ghost second = first + fault(levels, levels_fault());
        assert(texts(messages@) =~= second);
        let order = order_pass(&self.nodes, self.root, -1, 0x1_0000_0000, fuel);
        if !order {
            let ghost earlier = messages@;
            messages.push(String::from_str("The keys of the tree are not in search order"));
            proof {
                assert(texts(messages@) =~= texts(earlier).push(order_fault()));
            }
        }
        let ghost third = second + fault(order, order_fault());
        assert(texts(messages@) =~= third);
        let count = match count_nodes(&self.nodes, self.root, fuel) {
            Some(met) => met == self.len,
            None => false,
        };
        if !count {
            let ghost earlier = messages@;
            messages.push(String::from_str("The tree does not hold as many nodes as it counts"));
            proof {
                assert(texts(messages@) =~= texts(earlier).push(count_fault()));
            }
        }
        proof {
            assert(texts(messages@) =~= third + fault(count, count_fault()));
            assert(texts(messages@) =~= given + self.findings());
        }
        messages
    }

    /// A walk over the nodes of the tree that has not yet begun.
    pub fn iter(&self) -> (walk: Iter<'_>)
        requires
            self.wf(),
        ensures
            walk.wf(),
            walk.tree() == self,
            walk.fresh(),
    {
        proof {
            self.lemma_wf();
            if let Some(top) = self.root {
                lemma_top(self.shape@);
            }
        }
        Iter { tree: self, current_link: self.root, first_move: true }
    }
}

/// A walk over the nodes of a tree in key order.
///
/// The walk stands at a node, or has not begun, or has run off one end of
/// the tree. `next` steps to the node with the next greater key, `next_back`
/// to the one with the next smaller key; the first step of a walk goes to
/// the least or to the greatest node. A walk that has run off an end stays
/// there.
pub struct Iter<'a> {
    tree: &'a AVLTree,
    current_link: Option<usize>,
    first_move: bool,
}

impl<'a> Iter<'a> {
    /// The tree walked over.
    pub closed spec fn tree(&self) -> &AVLTree {
        self.tree
    }

    /// Whether no step has been taken yet.
    pub closed spec fn fresh(&self) -> bool {
        self.first_move
    }

    /// The index in the tree's `keys` of the node the walk stands at.
    pub closed spec fn cursor(&self) -> Option<int> {
        match self.current_link {
            Some(slot) => Some(place(self.tree.shape@, slot)),
            None => None,
        }
    }

    /// Whether the walk is over a well-formed tree and stands in it.
    pub closed spec fn wf(&self) -> bool {
        &&& self.tree.inv()
        &&& self.current_link matches Some(slot) ==> self.tree.shape@.slots().contains(slot)
    }

    /// The index in `keys` that `next` steps to; the number of keys where
    /// there is no such node.
    pub open spec fn next_index(&self) -> int {
        if self.fresh() {
            0
        } else {
            match self.cursor() {
                Some(index) => index + 1,
                None => self.tree().keys().len() as int,
            }
        }
    }

    /// The index in `keys` that `next_back` steps to; `-1` where there is
    /// no such node.
    pub open spec fn back_index(&self) -> int {
        if self.fresh() {
            self.tree().keys().len() - 1
        } else {
            match self.cursor() {
                Some(index) => index - 1,
                None => -1,
            }
        }
    }

    /// Whether `item` is what a step to `index` yields on `tree`: the node
    /// with the key at that index, or nothing where the index is out of range.
    pub open spec fn yields(tree: &AVLTree, index: int, item: Option<&Node>) -> bool {
        if 0 <= index < tree.keys().len() {
            &&& item matches Some(node)
            &&& node.key == tree.keys()[index]
            &&& node.value@ == tree@[tree.keys()[index]]
        } else {
            item is None
        }
    }

    /// Stands at `slot` and hands out its node.
    fn arrive(&mut self, slot: usize) -> (node: &'a Node)
        requires
            old(self).tree.inv(),
            old(self).tree.shape@.slots().contains(slot),
        ensures
            final(self).wf(),
            final(self).tree() == old(self).tree(),
            !final(self).fresh(),
            final(self).cursor() == Some(place(old(self).tree.shape@, slot)),
            Self::yields(old(self).tree(), place(old(self).tree.shape@, slot), Some(node)),
    {
        proof {
            self.tree.lemma_wf();
            lemma_slot(self.tree.nodes@, self.tree.shape@, None, floor(), ceiling(), slot);
        }
        self.first_move = false;
        self.current_link = Some(slot);
        &self.tree.nodes[slot]
    }

    /// Runs off the end of the tree.
    fn finish(&mut self)
        requires
            old(self).tree.inv(),
        ensures
            final(self).wf(),
            final(self).tree() == old(self).tree(),
            !final(self).fresh(),
            final(self).cursor() is None,
    {
        self.first_move = false;
        self.current_link = None;
    }

    /// Steps to the node with the next greater key and hands it out; the
    /// first step goes to the node with the least key.
    ///
    /// From a node with a right child the step goes down to the least node
    /// below that child. From any other node it climbs: past every parent
    /// reached from the right, to the first parent reached from the left.
    pub fn next(&mut self) -> (item: Option<&'a Node>)
        requires
            old(self).wf(),
        ensures
            final(self).wf(),
            final(self).tree() == old(self).tree(),
            !final(self).fresh(),
            Self::yields(old(self).tree(), old(self).next_index(), item),
            final(self).cursor() == if 0 <= old(self).next_index() < old(self).tree().keys().len() {
                Some(old(self).next_index())
            } else {
                None
            },
    {
        let tree = self.tree;
        let ghost t = tree.shape@;
        proof {
            tree.lemma_wf();
            lemma_ordered(tree.nodes@, t, floor(), ceiling());
            lemma_shape_size(t);
        }
        if self.first_move {
            match tree.root {
                None => {
                    self.finish();
                    None
                },
                Some(top) => {
                    proof {
                        lemma_top(t);
                    }
                    let least = tree.leftmost(top);
                    Some(self.arrive(least))
                },
            }
        } else {
            let start = match self.current_link {
                None => {
                    self.finish();
                    return None;
                },
                Some(slot) => slot,
            };
            proof {
                lemma_slot(tree.nodes@, t, None, floor(), ceiling(), start);
                lemma_below(t, start);
                let sub = t.below(start);
                lemma_fork(sub.left(), start, sub.right());
                lemma_shape_size(sub.left());
                assert(sub.size() == 1 + sub.left().size() + sub.right().size());
                assert(tree.nodes@[start as int].right == sub.right().root());
            }
            match tree.nodes[start].right {
                Some(child) => {
                    proof {
                        let sub = t.below(start);
                        if sub.left().root() == Some(child) {
                            lemma_top(sub.left());
                            lemma_top(sub.right());
                        }
                        lemma_below_child(t, start, child);
                    }
                    let least = tree.leftmost(child);
                    Some(self.arrive(least))
                },
                None => {
                    let mut current = start;
                    loop
                        invariant
                            tree.inv(),
                            t == tree.shape@,
                            self.tree == tree,
                            t.slots().contains(current),
                            t.offset(current) + t.below(current).size() == place(t, start) + 1,
                            key_list(tree.nodes@, t).len() == t.size(),
                            old(self).tree == tree,
                            old(self).next_index() == place(t, start) + 1,
                            tree.keys() == key_list(tree.nodes@, t),
                            tree.wf(),
                        decreases t.depth(current),
                    {
                        proof {
                            lemma_slot(tree.nodes@, t, None, floor(), ceiling(), current);
                            lemma_below(t, current);
                            tree.lemma_names();
                        }
                        match tree.get_parentage(current) {
                            Branch::Root => {
                                proof {
                                    lemma_top(t);
                                }
                                self.finish();
                                return None;
                            },
                            Branch::Left => {
                                let above = tree.nodes[current].parent.unwrap();
                                proof {
                                    lemma_below_child(t, above, current);
                                }
                                return Some(self.arrive(above));
                            },
                            Branch::Right => {
                                let above = tree.nodes[current].parent.unwrap();
                                proof {
                                    lemma_slot(tree.nodes@, t, None, floor(), ceiling(), above);
                                    let sub = t.below(above);
                                    lemma_fork(sub.left(), above, sub.right());
                                    if sub.left().root() == Some(current) {
                                        lemma_top(sub.left());
                                        lemma_top(sub.right());
                                    }
                                    lemma_below_child(t, above, current);
                                    assert(sub.size() == 1 + sub.left().size() + sub.right().size());
                                }
                                current = above;
                            },
                        }
                    }
                },
            }
        }
    }

    /// Steps to the node with the next smaller key and hands it out; the
    /// first step goes to the node with the greatest key.
    ///
    /// From a node with a left child the step goes down to the greatest node
    /// below that child. From any other node it climbs: past every parent
    /// reached from the left, to the first parent reached from the right.
    pub fn next_back(&mut self) -> (item: Option<&'a Node>)
        requires
            old(self).wf(),
        ensures
            final(self).wf(),
            final(self).tree() == old(self).tree(),
            !final(self).fresh(),
            Self::yields(old(self).tree(), old(self).back_index(), item),
            final(self).cursor() == if 0 <= old(self).back_index() < old(self).tree().keys().len() {
                Some(old(self).back_index())
            } else {
                None
            },
    {
        let tree = self.tree;
        let ghost t = tree.shape@;
        proof {
            tree.lemma_wf();
            lemma_ordered(tree.nodes@, t, floor(), ceiling());
            lemma_shape_size(t);
        }
        if self.first_move {
            match tree.root {
                None => {
                    self.finish();
                    None
                },
                Some(top) => {
                    proof {
                        lemma_top(t);
                    }
                    let greatest = tree.rightmost(top);
                    Some(self.arrive(greatest))
                },
            }
        } else {
            let start = match self.current_link {
                None => {
                    self.finish();
                    return None;
                },
                Some(slot) => slot,
            };
            proof {
                lemma_slot(tree.nodes@, t, None, floor(), ceiling(), start);
                lemma_below(t, start);
                let sub = t.below(start);
                lemma_fork(sub.left(), start, sub.right());
                lemma_shape_size(sub.left());
            }
            match tree.nodes[start].left {
                Some(child) => {
                    proof {
                        lemma_below_child(t, start, child);
                    }
                    let greatest = tree.rightmost(child);
                    Some(self.arrive(greatest))
                },
                None => {
                    let mut current = start;
                    loop
                        invariant
                            tree.inv(),
                            t == tree.shape@,
                            self.tree == tree,
                            t.slots().contains(current),
                            t.offset(current) == place(t, start),
                            key_list(tree.nodes@, t).len() == t.size(),
                            old(self).tree == tree,
                            old(self).back_index() == place(t, start) - 1,
                            tree.keys() == key_list(tree.nodes@, t),
                            tree.wf(),
                        decreases t.depth(current),
                    {
                        proof {
                            lemma_slot(tree.nodes@, t, None, floor(), ceiling(), current);
                            lemma_below(t, current);
                            tree.lemma_names();
                        }
                        match tree.get_parentage(current) {
                            Branch::Root => {
                                proof {
                                    lemma_top(t);
                                }
                                self.finish();
                                return None;
                            },
                            Branch::Right => {
                                let above = tree.nodes[current].parent.unwrap();
                                proof {
                                    lemma_slot(tree.nodes@, t, None, floor(), ceiling(), above);
                                    let sub = t.below(above);
                                    lemma_fork(sub.left(), above, sub.right());
                                    if sub.left().root() == Some(current) {
                                        lemma_top(sub.left());
                                        lemma_top(sub.right());
                                    }
                                    lemma_below_child(t, above, current);
                                }
                                return Some(self.arrive(above));
                            },
                            Branch::Left => {
                                let above = tree.nodes[current].parent.unwrap();
                                proof {
                                    lemma_below_child(t, above, current);
                                }
                                current = above;
                            },
                        }
                    }
                },
            }
        }
    }
}

} // verus!
