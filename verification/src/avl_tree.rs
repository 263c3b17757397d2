//! A height-balanced search tree from price to the orders resting there.
//!
//! The nodes live in an arena and name each other by index: every node
//! knows its parent and its two children. Slots of removed nodes are kept on
//! a free list and used again. A ghost outline records which slot stands
//! where; the invariant ties the links in the arena to it.
//!
//! Lookups, inserts and removes begin with the same descent from the root.
//! An insert or a remove then changes the tree at the place found and
//! climbs back to the root by the parent links, putting level again every
//! fork on the way.

use vstd::prelude::*;
use crate::links::{
    Node, Children, linked, ordered, contents, key_list, spare, pushed, rising, lemma_linked_frame,
    lemma_linked_housed, lemma_data_frame, lemma_ordered, lemma_write_left, lemma_write_right,
    lemma_slot, lemma_value_update,
};
use crate::audit::{root_level, level_kept};
use crate::climb::{
    Frame, Change, balance_stack, descends, goes_on, settled, passed, place_below, upper_end,
    rebuilt,
};
use crate::order::{Order, OrderView, Price};
use crate::order_stack::OrderStack;
use crate::detach::{promote_successor, replace_with_child, taking_out};
use crate::shape::{
    Shape, place, lemma_shape_fits, lemma_shape_size, lemma_fork, lemma_below_child, lemma_top,
    lemma_below,
};

verus! {

/// The bound below every key.
pub open spec fn floor() -> int {
    -1
}

/// The bound above every key.
pub open spec fn ceiling() -> int {
    0x1_0000_0000
}

/// A balanced search tree keyed by price; each key holds a queue of orders.
pub struct AVLTree {
    pub(crate) nodes: Vec<Node>,
    pub(crate) free: Vec<usize>,
    pub(crate) root: Option<usize>,
    pub(crate) len: usize,
    pub(crate) shape: Ghost<Shape>,
}

/// The order that stands for a missing one: what `Order::default` gives.
pub open spec fn order_or_default(order: Option<Order>) -> OrderView {
    match order {
        Some(given) => given@,
        None => OrderView {
            uid: crate::order::default_uid(),
            side: crate::order::Side::Bids,
            price: 0,
            size: 0,
            timestamp: crate::order::default_timestamp(),
        },
    }
}

impl View for AVLTree {
    type V = Map<Price, Seq<OrderView>>;

    /// The price levels of the tree: each key with the queue resting at it.
    closed spec fn view(&self) -> Map<Price, Seq<OrderView>> {
        contents(self.nodes@, self.shape@)
    }
}

impl AVLTree {
    /// The invariant, for the modules of this crate that work on the arena.
    pub(crate) open spec fn inv(&self) -> bool {
        &&& linked(self.nodes@, self.shape@, None)
        &&& self.shape@.root() == self.root
        &&& self.shape@.distinct()
        &&& self.shape@.balanced()
        &&& ordered(self.nodes@, self.shape@, floor(), ceiling())
        &&& self.len == self.shape@.size()
        &&& spare(self.nodes@.len(), self.free@, self.shape@.slots())
    }

    /// Whether the tree is well formed: the links in the arena form a tree
    /// in which every node names its parent and its children, whose keys are
    /// in search order, in which the two sides of every node differ in
    /// height by at most one, and whose nodes are counted by `len`.
    pub closed spec fn wf(&self) -> bool {
        self.inv()
    }

    /// The keys of the tree in the order of a walk from left to right.
    pub closed spec fn keys(&self) -> Seq<Price> {
        key_list(self.nodes@, self.shape@)
    }

    /// The number of nodes, as `len` returns it.
    pub closed spec fn spec_len(&self) -> usize {
        self.len
    }

    /// `wf` is the invariant.
    pub(crate) proof fn lemma_wf(&self)
        ensures
            self.wf() == self.inv(),
            self@ == contents(self.nodes@, self.shape@),
            self.keys() == key_list(self.nodes@, self.shape@),
            self.spec_len() == self.len,
    {
    }

    /// What the walk from left to right shows of a well-formed tree: its
    /// keys rise strictly, they are the prices of its levels in rising
    /// order, and `len` counts them.
    pub proof fn lemma_keys(&self)
        requires
            self.wf(),
        ensures
            rising(self.keys()),
            self.keys() == crate::levels::key_order(self@),
            self.keys().len() == self.spec_len(),
            self@.dom().finite(),
            self@.dom().len() == self.spec_len(),
    {
        let keys = self.keys();
        lemma_ordered(self.nodes@, self.shape@, floor(), ceiling());
        assert forall|k: Price| self@.contains_key(k) <==> keys.contains(k) by {
            if keys.contains(k) {
                let j = choose|j: int| 0 <= j < keys.len() && keys[j] == k;
                assert(self@.contains_key(keys[j]));
            }
            if self@.contains_key(k) {
                let j = choose|j: int| 0 <= j < self.shape@.size() && keys[j] == k;
            }
        }
        crate::levels::lemma_key_order(self@, keys);
    }

    /// An empty tree.
    pub fn new() -> (tree: AVLTree)
        ensures
            tree.wf(),
            tree@ == Map::<Price, Seq<OrderView>>::empty(),
            tree.keys() == Seq::<Price>::empty(),
            tree.spec_len() == 0,
    {
        AVLTree { nodes: Vec::new(), free: Vec::new(), root: None, len: 0, shape: Ghost(Shape::Leaf) }
    }

    /// The number of nodes, one for each key.
    #[verifier::when_used_as_spec(spec_len)]
    pub fn len(&self) -> (count: usize)
        ensures
            count == self.spec_len(),
    {
        self.len
    }

    /// Whether the tree holds no key.
    pub fn is_empty(&self) -> (empty: bool)
        requires
            self.wf(),
        ensures
            empty == (self@ == Map::<Price, Seq<OrderView>>::empty()),
            empty == (self.spec_len() == 0),
    {
        proof {
            lemma_ordered(self.nodes@, self.shape@, floor(), ceiling());
            if self.len == 0 {
                assert(self@ =~= Map::<Price, Seq<OrderView>>::empty());
            }
        }
        self.len == 0
    }

    /// Puts `order` at `key`. The key is located; where a node has it, the
    /// order joins the back of its queue and no link changes. Where none
    /// has it, a node with a queue of that one order is hung in the empty
    /// link that was found, and the forks from its parent up to the root
    /// are put level again. A missing order stands for the default order.
    pub fn insert(&mut self, key: Price, order: Option<Order>)
        requires
            old(self).wf(),
        ensures
            final(self).wf(),
            final(self)@ == old(self)@.insert(key, pushed(old(self)@, key, order_or_default(order))),
            final(self).spec_len() == old(self).spec_len() + if old(self)@.contains_key(key) {
                0int
            } else {
                1int
            },
    {
        let order = match order {
            Some(given) => given,
            None => Order::default(),
        };
        let ghost t = self.shape@;
        let ghost start = self.nodes@;
        let ghost used = t.slots();
        proof {
            lemma_linked_housed(start, t, None);
        }
        let (location, Ghost(frames), Ghost(place)) = self.locate(&key);
        match location {
            LinkLocation::Occupied { parent: _, link } => {
                proof {
                    lemma_slot(start, t, None, floor(), ceiling(), link);
                }
                self.nodes[link].value.push_back(order);
                proof {
                    lemma_value_update(start, self.nodes@, t, None, floor(), ceiling(), link);
                }
            },
            LinkLocation::Vacant { parent, branch: _ } => {
                let mut value = OrderStack::new();
                value.push_back(order);
                let node = Node { key, value, parent, left: None, right: None, height: 1 };
                let at: usize;
                if self.free.len() > 0 {
                    at = self.free.pop().unwrap();
                    self.nodes[at] = node;
                } else {
                    at = self.nodes.len();
                    self.nodes.push(node);
                }
                let ghost fresh = Shape::fork(Shape::Leaf, at, Shape::Leaf);
                let ghost change = Change { key, queue: Some(seq![order@]), slot: at };
                proof {
                    reveal_with_fuel(linked, 2);
                    reveal_with_fuel(ordered, 2);
                    reveal_with_fuel(contents, 2);
                    reveal_with_fuel(Shape::slots, 2);
                    reveal_with_fuel(Shape::distinct, 2);
                    reveal_with_fuel(Shape::balanced, 2);
                    reveal_with_fuel(Shape::height, 2);
                    assert(fresh.slots() =~= set![at]);
                    assert(self.nodes@[at as int].value@ =~= seq![order@]);
                    assert(contents(self.nodes@, fresh) =~= Map::<Price, Seq<OrderView>>::empty().insert(
                        key,
                        seq![order@],
                    ));
                    assert(fresh.slots() =~= place.outline.slots().insert(at));
                    assert(rebuilt(start, self.nodes@, place, fresh, change, used));
                }
                let (top, Ghost(t2)) = balance_stack(
                    &mut self.nodes,
                    key,
                    Some(at),
                    parent,
                    None,
                    Ghost(start),
                    Ghost(frames),
                    Ghost(place),
                    Ghost(fresh),
                    Ghost(change),
                    Ghost(used),
                );
                proof {
                    lemma_linked_housed(self.nodes@, t2, None);
                    lemma_shape_fits(t2, self.nodes@.len());
                    lemma_shape_size(t2);
                    lemma_shape_size(t);
                    assert(self.nodes@.len() == self.nodes.len());
                }
                self.root = top;
                self.shape = Ghost(t2);
                self.len = self.len + 1;
            },
        }
    }

    /// Removes the node at `key`, if there is one, and hands it back with
    /// its links cleared. The key is located; the node found is replaced by
    /// its only child or, where it has two, by its successor, and the forks
    /// from the place of the change up to the root are put level again.
    pub fn remove(&mut self, key: &Price) -> (removed: Option<Node>)
        requires
            old(self).wf(),
        ensures
            final(self).wf(),
            final(self)@ == old(self)@.remove(*key),
            match removed {
                Some(node) => {
                    &&& old(self)@.contains_key(*key)
                    &&& node.key == *key
                    &&& node.value@ == old(self)@[*key]
                    &&& node.parent is None
                    &&& node.left is None
                    &&& node.right is None
                    &&& final(self).spec_len() == old(self).spec_len() - 1
                },
                None => {
                    &&& !old(self)@.contains_key(*key)
                    &&& final(self).spec_len() == old(self).spec_len()
                },
            },
    {
        let (location, Ghost(frames), Ghost(place)) = self.locate(key);
        self.remove_by_location(*key, location, Ghost(frames), Ghost(place))
    }

    /// Removes the node found at `location`, if one was found. A node with
    /// at most one child is replaced by that child; a node with two by its
    /// successor. Then the forks from the place of the change up to the
    /// root are put level again, and the slot of the node is kept for use
    /// by a later insert.
    pub(crate) fn remove_by_location(
        &mut self,
        key: Price,
        location: LinkLocation,
        Ghost(frames): Ghost<Seq<Frame>>,
        Ghost(place): Ghost<Frame>,
    ) -> (removed: Option<Node>)
        requires
            old(self).inv(),
            descends(old(self).nodes@, frames, key, old(self).shape@.slots()),
            settled(old(self).nodes@, place, key, old(self).shape@.slots()),
            frames.len() > 0 ==> place == place_below(old(self).nodes@, frames.last(), key),
            upper_end(frames, place) == old(self).whole(),
            old(self)@.contains_key(key) == contents(old(self).nodes@, place.outline).contains_key(key),
            match location {
                LinkLocation::Occupied { parent, link } => {
                    &&& place.outline.root() == Some(link)
                    &&& place.parent == parent
                    &&& old(self).shape@.slots().contains(link)
                    &&& old(self).nodes@[link as int].key == key
                },
                LinkLocation::Vacant { parent, branch } => place.outline is Leaf,
            },
        ensures
            final(self).inv(),
            final(self)@ == old(self)@.remove(key),
            match removed {
                Some(node) => {
                    &&& old(self)@.contains_key(key)
                    &&& node.key == key
                    &&& node.value@ == old(self)@[key]
                    &&& node.parent is None
                    &&& node.left is None
                    &&& node.right is None
                    &&& final(self).len == old(self).len - 1
                },
                None => {
                    &&& !old(self)@.contains_key(key)
                    &&& final(self).len == old(self).len
                },
            },
    {
        let ghost t = self.shape@;
        let ghost start = self.nodes@;
        let ghost used = t.slots();
        let (parent, link) = match location {
            LinkLocation::Vacant { parent: _, branch: _ } => {
                proof {
                    assert(self@.remove(key) =~= self@);
                }
                return None;
            },
            LinkLocation::Occupied { parent, link } => (parent, link),
        };
        proof {
            lemma_linked_housed(start, t, None);
            lemma_slot(start, t, None, floor(), ceiling(), link);
            lemma_fork(place.outline.left(), link, place.outline.right());
            assert(linked(start, place.outline.left(), Some(link)));
            assert(linked(start, place.outline.right(), Some(link)));
        }
        let (rest, Ghost(sub)) = match self.nodes[link].which_children_exist() {
            Children::Both => promote_successor(
                &mut self.nodes,
                link,
                parent,
                Ghost(place),
                Ghost(used),
            ),
            _ => replace_with_child(&mut self.nodes, link, parent, Ghost(place), Ghost(used)),
        };
        let (top, Ghost(t2)) = balance_stack(
            &mut self.nodes,
            key,
            rest,
            parent,
            None,
            Ghost(start),
            Ghost(frames),
            Ghost(place),
            Ghost(sub),
            Ghost(taking_out(start, link)),
            Ghost(used),
        );
        let ghost mid = self.nodes@;
        proof {
            lemma_linked_housed(mid, t2, None);
            lemma_shape_size(t);
            lemma_shape_size(t2);
            assert(t2.slots() =~= t.slots().remove(link));
        }
        let mut node = Node {
            key: 0,
            value: OrderStack::new(),
            parent: None,
            left: None,
            right: None,
            height: 0,
        };
        std::mem::swap(&mut self.nodes[link], &mut node);
        self.free.push(link);
        self.root = top;
        self.shape = Ghost(t2);
        self.len = self.len - 1;
        node.parent = None;
        node.left = None;
        node.right = None;
        proof {
            assert(self.nodes@ =~= mid.update(link as int, self.nodes@[link as int]));
            lemma_linked_frame(mid, self.nodes@, t2, None);
            lemma_data_frame(mid, self.nodes@, t2);
            assert(ordered(self.nodes@, t2, floor(), ceiling()));
            assert(self.free@ =~= old(self).free@.push(link));
        }
        Some(node)
    }

    /// Whether the two sides of the root differ in height by at most one,
    /// by the heights that the children of the root hold. It needs no
    /// well-formed tree; a well-formed tree is always balanced.
    pub fn is_balanced(&self) -> (balanced: bool)
        ensures
            balanced == root_level(self.arena(), self.root_link()),
            self.wf() ==> balanced,
    {
        proof {
            if self.wf() {
                self.lemma_sound();
            }
        }
        match self.root {
            None => true,
            Some(top) => level_kept(&self.nodes, top),
        }
    }
}

/// How a node hangs under its parent.
#[derive(Clone, Copy, Debug, PartialEq, Eq, Structural)]
pub enum Branch {
    Root,
    Left,
    Right,
}

/// Where a key stands in the tree, or would stand.
#[derive(Clone, Copy, Debug, PartialEq, Eq, Structural)]
pub enum LinkLocation {
    /// No node has the key. A node for it would hang on `branch` under
    /// `parent`, or be the root of an empty tree.
    Vacant { parent: Option<usize>, branch: Branch },
    /// The node at `link` has the key and hangs under `parent`.
    Occupied { parent: Option<usize>, link: usize },
}

impl AVLTree {
    /// Whether `slot` holds a node of the tree.
    pub closed spec fn live(&self, slot: usize) -> bool {
        self.shape@.slots().contains(slot)
    }

    /// The node held at `slot`.
    pub closed spec fn node(&self, slot: usize) -> Node {
        self.nodes@[slot as int]
    }

    /// The arena: the nodes of the tree and the slots kept for later use.
    pub closed spec fn arena(&self) -> Seq<Node> {
        self.nodes@
    }

    /// The link to the root.
    pub closed spec fn root_link(&self) -> Option<usize> {
        self.root
    }

    /// The height of what hangs below `link`: the number of nodes on the
    /// longest way down from it.
    pub closed spec fn height_below(&self, link: Option<usize>) -> nat {
        match link {
            None => 0,
            Some(slot) => self.shape@.below(slot).height(),
        }
    }

    /// The number of nodes above `slot` on the way to the root.
    pub closed spec fn depth_of(&self, slot: usize) -> nat {
        self.shape@.depth(slot)
    }

    /// The index in `keys` of the key held at `slot`.
    pub closed spec fn index_of(&self, slot: usize) -> int {
        place(self.shape@, slot)
    }

    /// The public names of the arena's parts.
    pub(crate) proof fn lemma_names(&self)
        ensures
            forall|slot: usize| self.live(slot) == self.shape@.slots().contains(slot),
            forall|slot: usize| self.node(slot) == self.nodes@[slot as int],
            self.root_link() == self.root,
            self.arena() == self.nodes@,
            forall|slot: usize| self.index_of(slot) == place(self.shape@, slot),
            forall|slot: usize| self.depth_of(slot) == self.shape@.depth(slot),
            forall|slot: usize|
                self.height_below(Some(slot)) == self.shape@.below(slot).height(),
            self.height_below(None) == 0,
    {
    }

    /// The place of the whole tree.
    pub(crate) open spec fn whole(&self) -> Frame {
        Frame { outline: self.shape@, parent: None, lo: floor(), hi: ceiling() }
    }

    /// Walks down from the root by comparing `key` with the key of each
    /// node met, and leaves a frame for each node passed. Finds the node
    /// that has the key, or the empty child link where a node for it would
    /// hang, with the parent in either case.
    pub(crate) fn locate(&self, key: &Price) -> (found: (LinkLocation, Ghost<Seq<Frame>>, Ghost<Frame>))
        requires
            self.inv(),
        ensures
            descends(self.nodes@, found.1@, *key, self.shape@.slots()),
            settled(self.nodes@, found.2@, *key, self.shape@.slots()),
            found.1@.len() > 0 ==> found.2@ == place_below(self.nodes@, found.1@.last(), *key),
            upper_end(found.1@, found.2@) == self.whole(),
            self@.contains_key(*key) == contents(self.nodes@, found.2@.outline).contains_key(*key),
            match found.0 {
                LinkLocation::Occupied { parent, link } => {
                    &&& found.2@.outline.root() == Some(link)
                    &&& found.2@.parent == parent
                    &&& self.shape@.slots().contains(link)
                    &&& self.nodes@[link as int].key == *key
                },
                LinkLocation::Vacant { parent, branch } => {
                    &&& found.2@.outline is Leaf
                    &&& found.2@.parent == parent
                    &&& match parent {
                        None => branch == Branch::Root && self.root is None,
                        Some(above) => {
                            &&& self.shape@.slots().contains(above)
                            &&& branch != Branch::Root
                            &&& branch == Branch::Left ==> self.nodes@[above as int].left is None
                                && *key < self.nodes@[above as int].key
                            &&& branch == Branch::Right ==> self.nodes@[above as int].right is None
                                && *key > self.nodes@[above as int].key
                        },
                    }
                },
            },
    {
        let ghost nodes = self.nodes@;
        let ghost used = self.shape@.slots();
        let ghost mut frames: Seq<Frame> = Seq::empty();
        let ghost mut here = self.whole();
        let mut parent: Option<usize> = None;
        let mut branch = Branch::Root;
        let mut current = self.root;
        while current.is_some()
            invariant
                self.inv(),
                nodes == self.nodes@,
                used == self.shape@.slots(),
                descends(nodes, frames, *key, used),
                settled(nodes, here, *key, used),
                frames.len() > 0 ==> here == place_below(nodes, frames.last(), *key),
                upper_end(frames, here) == self.whole(),
                here.outline.root() == current,
                here.parent == parent,
                self@.contains_key(*key) == contents(nodes, here.outline).contains_key(*key),
                match parent {
                    None => branch == Branch::Root && current == self.root,
                    Some(above) => {
                        &&& used.contains(above)
                        &&& branch != Branch::Root
                        &&& branch == Branch::Left ==> nodes[above as int].left == current && *key
                            < nodes[above as int].key
                        &&& branch == Branch::Right ==> nodes[above as int].right == current && *key
                            > nodes[above as int].key
                    },
                },
            decreases here.outline.height(),
        {
            let at = current.unwrap();
            let ghost l = here.outline.left();
            let ghost r = here.outline.right();
            proof {
                lemma_fork(l, at, r);
                assert(here.outline.slots().contains(at));
            }
            let at_key = self.nodes[at].key;
            proof {
                lemma_ordered(nodes, l, here.lo, at_key as int);
                lemma_ordered(nodes, r, at_key as int, here.hi);
            }
            if *key == at_key {
                return (LinkLocation::Occupied { parent, link: at }, Ghost(frames), Ghost(here));
            }
            proof {
                let below = place_below(nodes, here, *key);
                if *key < at_key {
                    lemma_write_left(
                        contents(nodes, l),
                        contents(nodes, r),
                        at_key,
                        nodes[at as int].value@,
                        *key,
                        Seq::empty(),
                    );
                } else {
                    lemma_write_right(
                        contents(nodes, l),
                        contents(nodes, r),
                        at_key,
                        nodes[at as int].value@,
                        *key,
                        Seq::empty(),
                    );
                }
                assert(below.outline.slots().subset_of(here.outline.slots()));
                let longer = frames.push(here);
                assert(passed(nodes, here, *key, used));
                assert forall|k: int| 0 <= k < longer.len() implies passed(
                    nodes,
                    #[trigger] longer[k],
                    *key,
                    used,
                ) by {
                    if k < frames.len() {
                        assert(longer[k] == frames[k]);
                    }
                }
                assert forall|k: int| 0 < k < longer.len() implies #[trigger] goes_on(
                    nodes,
                    longer,
                    k,
                    *key,
                ) by {
                    if k < frames.len() {
                        assert(goes_on(nodes, frames, k, *key));
                        assert(longer[k] == frames[k]);
                        assert(longer[k - 1] == frames[k - 1]);
                    }
                }
                frames = longer;
                here = below;
            }
            parent = Some(at);
            if *key < at_key {
                branch = Branch::Left;
                current = self.nodes[at].left;
            } else {
                branch = Branch::Right;
                current = self.nodes[at].right;
            }
        }
        (LinkLocation::Vacant { parent, branch }, Ghost(frames), Ghost(here))
    }

    /// Walks down from the root by comparing `key` with the key of each
    /// node met. Finds the node that has the key, or the empty child link
    /// where a node for it would hang, with the parent in either case.
    pub fn find_link_location(&self, key: &Price) -> (location: LinkLocation)
        requires
            self.wf(),
        ensures
            match location {
                LinkLocation::Occupied { parent, link } => {
                    &&& self.live(link)
                    &&& self.node(link).key == *key
                    &&& self.node(link).parent == parent
                    &&& self@.contains_key(*key)
                    &&& self@[*key] == self.node(link).value@
                },
                LinkLocation::Vacant { parent, branch } => {
                    &&& !self@.contains_key(*key)
                    &&& match parent {
                        None => branch == Branch::Root && self.root_link() is None,
                        Some(above) => {
                            &&& self.live(above)
                            &&& branch != Branch::Root
                            &&& branch == Branch::Left ==> self.node(above).left is None && *key
                                < self.node(above).key
                            &&& branch == Branch::Right ==> self.node(above).right is None && *key
                                > self.node(above).key
                        },
                    }
                },
            },
    {
        let (location, Ghost(frames), Ghost(place)) = self.locate(key);
        proof {
            if let LinkLocation::Occupied { parent, link } = location {
                lemma_slot(self.nodes@, self.shape@, None, floor(), ceiling(), link);
            }
        }
        location
    }

    /// The slot of the node that has `key`, if there is one.
    pub fn find_link(&self, key: &Price) -> (link: Option<usize>)
        requires
            self.wf(),
        ensures
            match link {
                Some(slot) => {
                    &&& self.live(slot)
                    &&& self.node(slot).key == *key
                    &&& self@.contains_key(*key)
                    &&& self@[*key] == self.node(slot).value@
                },
                None => !self@.contains_key(*key),
            },
    {
        match self.find_link_location(key) {
            LinkLocation::Occupied { parent: _, link } => Some(link),
            LinkLocation::Vacant { parent: _, branch: _ } => None,
        }
    }

    /// The queue at `key`, if the tree has the key.
    pub fn get(&self, key: &Price) -> (found: Option<&OrderStack>)
        requires
            self.wf(),
        ensures
            match found {
                Some(stack) => self@.contains_key(*key) && stack@ == self@[*key],
                None => !self@.contains_key(*key),
            },
    {
        match self.find_link(key) {
            Some(slot) => {
                proof {
                    lemma_linked_housed(self.nodes@, self.shape@, None);
                }
                Some(&self.nodes[slot].value)
            },
            None => None,
        }
    }

    /// The queue at `key`, if the tree has the key, for editing in place.
    /// Whatever is done to the queue, the tree stays well formed and changes
    /// at that key alone.
    pub fn get_mut(&mut self, key: &Price) -> (found: Option<&mut OrderStack>)
        requires
            old(self).wf(),
        ensures
            match found {
                Some(stack) => {
                    &&& old(self)@.contains_key(*key)
                    &&& stack@ == old(self)@[*key]
                    &&& final(self).wf()
                    &&& final(self)@ == old(self)@.insert(*key, final(stack)@)
                    &&& final(self).keys() == old(self).keys()
                    &&& final(self).spec_len() == old(self).spec_len()
                },
                None => !old(self)@.contains_key(*key) && *final(self) == *old(self),
            },
    {
        match self.find_link(key) {
            Some(slot) => {
                let ghost before = self.nodes@;
                proof {
                    lemma_linked_housed(before, self.shape@, None);
                }
                let stack = &mut self.nodes[slot].value;
                proof {
                    let after = after_borrow(self.nodes)@;
                    assert(after.len() == before.len());
                    lemma_value_update(before, after, self.shape@, None, floor(), ceiling(), slot);
                }
                Some(stack)
            },
            None => None,
        }
    }

    /// Whether the tree has `key`.
    pub fn has(&self, key: &Price) -> (found: bool)
        requires
            self.wf(),
        ensures
            found == self@.contains_key(*key),
    {
        match self.find_link(key) {
            None => false,
            Some(_) => true,
        }
    }
}

impl AVLTree {
    /// Balance: at every node of a well-formed tree the height is one more
    /// than the greater of the heights below its two child links, the node
    /// holds that height, and the two heights differ by at most one.
    pub proof fn lemma_balance(&self, slot: usize)
        requires
            self.wf(),
            self.live(slot),
        ensures
            self.height_below(None) == 0,
            self.height_below(Some(slot)) == 1 + crate::shape::max_nat(
                self.height_below(self.node(slot).left),
                self.height_below(self.node(slot).right),
            ),
            self.node(slot).height == self.height_below(Some(slot)),
            self.height_below(self.node(slot).left) <= self.height_below(self.node(slot).right) + 1,
            self.height_below(self.node(slot).right) <= self.height_below(self.node(slot).left) + 1,
    {
        let t = self.shape@;
        let sub = t.below(slot);
        lemma_slot(self.nodes@, t, None, floor(), ceiling(), slot);
        lemma_below(t, slot);
        lemma_fork(sub.left(), slot, sub.right());
        if let Some(child) = self.nodes@[slot as int].left {
            if sub.right().root() == Some(child) {
                lemma_top(sub.left());
                lemma_top(sub.right());
            }
            lemma_below_child(t, slot, child);
        }
        if let Some(child) = self.nodes@[slot as int].right {
            if sub.left().root() == Some(child) {
                lemma_top(sub.left());
                lemma_top(sub.right());
            }
            lemma_below_child(t, slot, child);
        }
    }

    /// Parent consistency: in a well-formed tree the node without a parent
    /// is the root; any other node is the left child or the right child of
    /// its parent, and not both; and every child names its parent.
    pub proof fn lemma_parent(&self, slot: usize)
        requires
            self.wf(),
            self.live(slot),
        ensures
            match self.node(slot).parent {
                None => self.root_link() == Some(slot),
                Some(above) => {
                    &&& self.live(above)
                    &&& self.root_link() != Some(slot)
                    &&& (self.node(above).left == Some(slot)) != (self.node(above).right == Some(slot))
                },
            },
            self.node(slot).left matches Some(child) ==> self.live(child) && self.node(child).parent
                == Some(slot),
            self.node(slot).right matches Some(child) ==> self.live(child) && self.node(child).parent
                == Some(slot),
    {
        let t = self.shape@;
        let sub = t.below(slot);
        lemma_slot(self.nodes@, t, None, floor(), ceiling(), slot);
        lemma_below(t, slot);
        if let Some(top) = t.root() {
            lemma_top(t);
            lemma_slot(self.nodes@, t, None, floor(), ceiling(), top);
        }
        let nodes = self.nodes@;
        assert(linked(nodes, sub.left(), Some(slot)));
        assert(linked(nodes, sub.right(), Some(slot)));
        if let Some(child) = nodes[slot as int].left {
            lemma_top(sub.left());
            assert(sub.left().root() == Some(child));
            assert(sub.slots().contains(child));
            assert(t.slots().contains(child));
        }
        if let Some(child) = nodes[slot as int].right {
            lemma_top(sub.right());
            assert(sub.right().root() == Some(child));
            assert(sub.slots().contains(child));
            assert(t.slots().contains(child));
        }
    }

    /// Search order: of two live nodes of a well-formed tree, the one that
    /// stands earlier in the walk from left to right has the smaller key,
    /// and every live node stands in the walk with its key and its queue.
    pub proof fn lemma_search_order(&self, slot: usize)
        requires
            self.wf(),
            self.live(slot),
        ensures
            0 <= self.index_of(slot) < self.keys().len(),
            self.keys()[self.index_of(slot)] == self.node(slot).key,
            self@.contains_key(self.node(slot).key),
            self@[self.node(slot).key] == self.node(slot).value@,
            rising(self.keys()),
    {
        lemma_slot(self.nodes@, self.shape@, None, floor(), ceiling(), slot);
        lemma_ordered(self.nodes@, self.shape@, floor(), ceiling());
    }
}

} // verus!
