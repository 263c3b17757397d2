//! Auditing an arena: whether its links, heights and keys make a sound tree.
//!
//! The audit reads nothing but the arena itself. It follows the child links
//! down from the root, at most as many steps deep as the arena has slots,
//! so that it comes to an end on any arena, whatever its links say.

use vstd::prelude::*;
use vstd::string::*;
use crate::avl_tree::{AVLTree, floor, ceiling};
use crate::links::{Node, linked, ordered, lemma_linked_housed};
use crate::order::Price;
use crate::shape::{Shape, lemma_fork, lemma_shape_fits, lemma_top};

verus! {

/// Whether a link is empty or names a slot of the arena.
pub open spec fn housed_link(arena: Seq<Node>, link: Option<usize>) -> bool {
    link matches Some(slot) ==> slot < arena.len()
}

/// The height that the node below a link holds; zero below an empty link.
pub open spec fn held_height(arena: Seq<Node>, link: Option<usize>) -> nat {
    match link {
        Some(slot) => arena[slot as int].height as nat,
        None => 0,
    }
}

/// Whether the heights held below the two child links of the node at
/// `slot` differ by at most one.
pub open spec fn level_at(arena: Seq<Node>, slot: usize) -> bool {
    &&& slot < arena.len()
    &&& housed_link(arena, arena[slot as int].left)
    &&& housed_link(arena, arena[slot as int].right)
    &&& held_height(arena, arena[slot as int].left) <= held_height(arena, arena[slot as int].right) + 1
    &&& held_height(arena, arena[slot as int].right) <= held_height(arena, arena[slot as int].left) + 1
}

/// Whether the tree is level at its root, by the heights that the children
/// of the root hold. An empty tree is level.
pub open spec fn root_level(arena: Seq<Node>, root: Option<usize>) -> bool {
    match root {
        Some(top) => level_at(arena, top),
        None => true,
    }
}

/// Whether every node that hangs below `link`, down to `fuel` steps, lies
/// in the arena and names the node it hangs under as its parent, the one
/// below `link` naming `parent`; and no node hangs on both sides of another.
pub open spec fn links_sound(
    arena: Seq<Node>,
    link: Option<usize>,
    parent: Option<usize>,
    fuel: nat,
) -> bool
    decreases fuel,
{
    match link {
        None => true,
        Some(slot) => {
            &&& fuel > 0
            &&& slot < arena.len()
            &&& arena[slot as int].parent == parent
            &&& arena[slot as int].left is None || arena[slot as int].left != arena[slot as int].right
            &&& links_sound(arena, arena[slot as int].left, Some(slot), (fuel - 1) as nat)
            &&& links_sound(arena, arena[slot as int].right, Some(slot), (fuel - 1) as nat)
        },
    }
}

/// Whether at every node that hangs below `link`, down to `fuel` steps,
/// the heights held below its two child links differ by at most one, and
/// the node holds one more than the greater of them.
pub open spec fn levels_sound(arena: Seq<Node>, link: Option<usize>, fuel: nat) -> bool
    decreases fuel,
{
    match link {
        None => true,
        Some(slot) => {
            &&& fuel > 0
            &&& level_at(arena, slot)
            &&& arena[slot as int].height == 1 + crate::shape::max_nat(
                held_height(arena, arena[slot as int].left),
                held_height(arena, arena[slot as int].right),
            )
            &&& levels_sound(arena, arena[slot as int].left, (fuel - 1) as nat)
            &&& levels_sound(arena, arena[slot as int].right, (fuel - 1) as nat)
        },
    }
}

/// Whether the keys of the nodes that hang below `link`, down to `fuel`
/// steps, lie strictly between `lo` and `hi`, left of each node below its
/// key and right of it above.
pub open spec fn order_sound(arena: Seq<Node>, link: Option<usize>, lo: int, hi: int, fuel: nat) -> bool
    decreases fuel,
{
    match link {
        None => true,
        Some(slot) => {
            &&& fuel > 0
            &&& slot < arena.len()
            &&& lo < arena[slot as int].key < hi
            &&& order_sound(
                arena,
                arena[slot as int].left,
                lo,
                arena[slot as int].key as int,
                (fuel - 1) as nat,
            )
            &&& order_sound(
                arena,
                arena[slot as int].right,
                arena[slot as int].key as int,
                hi,
                (fuel - 1) as nat,
            )
        },
    }
}

/// The number of nodes met on the ways down from `link` that lie in the
/// arena, down to `fuel` steps.
pub open spec fn nodes_below(arena: Seq<Node>, link: Option<usize>, fuel: nat) -> nat
    decreases fuel,
{
    match link {
        None => 0,
        Some(slot) => if fuel > 0 && slot < arena.len() {
            1 + nodes_below(arena, arena[slot as int].left, (fuel - 1) as nat) + nodes_below(
                arena,
                arena[slot as int].right,
                (fuel - 1) as nat,
            )
        } else {
            0
        },
    }
}

/// What the audit says where a node does not hang under its parent.
pub open spec fn links_fault() -> Seq<char> {
    "A node does not name the node that it hangs under as its parent"@
}

/// What the audit says where a node is out of balance.
pub open spec fn levels_fault() -> Seq<char> {
    "A node is out of balance or holds a wrong height"@
}

/// What the audit says where the keys are out of order.
pub open spec fn order_fault() -> Seq<char> {
    "The keys of the tree are not in search order"@
}

/// What the audit says where the count of nodes is wrong.
pub open spec fn count_fault() -> Seq<char> {
    "The tree does not hold as many nodes as it counts"@
}

/// The message for a fault, where there is one.
pub open spec fn fault(sound: bool, message: Seq<char>) -> Seq<Seq<char>> {
    if sound {
        Seq::empty()
    } else {
        seq![message]
    }
}

/// What an audit finds in an arena with the given root link and count of
/// nodes: a message for each kind of fault, in this order: links, heights,
/// order of keys, count.
pub open spec fn findings(arena: Seq<Node>, root: Option<usize>, count: usize) -> Seq<Seq<char>> {
    fault(links_sound(arena, root, None, arena.len()), links_fault()) + fault(
        levels_sound(arena, root, arena.len()),
        levels_fault(),
    ) + fault(order_sound(arena, root, floor(), ceiling(), arena.len()), order_fault()) + fault(
        nodes_below(arena, root, arena.len()) == count,
        count_fault(),
    )
}

/// Whether two links are the same.
pub(crate) fn same_link(one: Option<usize>, other: Option<usize>) -> (same: bool)
    ensures
        same == (one == other),
{
    match (one, other) {
        (None, None) => true,
        (Some(a), Some(b)) => a == b,
        _ => false,
    }
}

/// Whether a link is empty or names a slot of the arena.
pub(crate) fn link_housed(nodes: &Vec<Node>, link: Option<usize>) -> (housed: bool)
    ensures
        housed == housed_link(nodes@, link),
{
    match link {
        Some(slot) => slot < nodes.len(),
        None => true,
    }
}

/// The height that the node below a link of the arena holds.
pub(crate) fn height_held(nodes: &Vec<Node>, link: Option<usize>) -> (height: usize)
    requires
        housed_link(nodes@, link),
    ensures
        height == held_height(nodes@, link),
{
    match link {
        Some(slot) => nodes[slot].height,
        None => 0,
    }
}

/// Whether the heights held below the two child links of the node at
/// `slot` differ by at most one.
pub(crate) fn level_kept(nodes: &Vec<Node>, slot: usize) -> (level: bool)
    ensures
        level == level_at(nodes@, slot),
{
    if slot >= nodes.len() {
        return false;
    }
    let left = nodes[slot].left;
    let right = nodes[slot].right;
    if !link_housed(nodes, left) || !link_housed(nodes, right) {
        return false;
    }
    let low = height_held(nodes, left);
    let high = height_held(nodes, right);
    if low >= high {
        low - high <= 1
    } else {
        high - low <= 1
    }
}

/// Follows the child links down from `link` and tells whether every node
/// met names the node it hangs under as its parent.
pub(crate) fn links_pass(
    nodes: &Vec<Node>,
    link: Option<usize>,
    parent: Option<usize>,
    fuel: usize,
) -> (sound: bool)
    ensures
        sound == links_sound(nodes@, link, parent, fuel as nat),
    decreases fuel,
{
    let slot = match link {
        None => {
            return true;
        },
        Some(slot) => slot,
    };
    if fuel == 0 || slot >= nodes.len() {
        return false;
    }
    let left = nodes[slot].left;
    let right = nodes[slot].right;
    if !same_link(nodes[slot].parent, parent) {
        return false;
    }
    if left.is_some() && same_link(left, right) {
        return false;
    }
    links_pass(nodes, left, Some(slot), fuel - 1) && links_pass(nodes, right, Some(slot), fuel - 1)
}

/// Follows the child links down from `link` and tells whether every node
/// met is level and holds the height that its children give it.
pub(crate) fn levels_pass(nodes: &Vec<Node>, link: Option<usize>, fuel: usize) -> (sound: bool)
    ensures
        sound == levels_sound(nodes@, link, fuel as nat),
    decreases fuel,
{
    let slot = match link {
        None => {
            return true;
        },
        Some(slot) => slot,
    };
    if fuel == 0 || !level_kept(nodes, slot) {
        return false;
    }
    let left = nodes[slot].left;
    let right = nodes[slot].right;
    let low = height_held(nodes, left);
    let high = height_held(nodes, right);
    let greater = if low >= high {
        low
    } else {
        high
    };
    let held = nodes[slot].height;
    if held == 0 || held - 1 != greater {
        return false;
    }
    levels_pass(nodes, left, fuel - 1) && levels_pass(nodes, right, fuel - 1)
}

/// Follows the child links down from `link` and tells whether every key
/// met lies between the bounds that the keys above it set.
pub(crate) fn order_pass(nodes: &Vec<Node>, link: Option<usize>, lo: i64, hi: i64, fuel: usize) -> (sound:
    bool)
    ensures
        sound == order_sound(nodes@, link, lo as int, hi as int, fuel as nat),
    decreases fuel,
{
    let slot = match link {
        None => {
            return true;
        },
        Some(slot) => slot,
    };
    if fuel == 0 || slot >= nodes.len() {
        return false;
    }
    let key = nodes[slot].key as i64;
    if !(lo < key && key < hi) {
        return false;
    }
    order_pass(nodes, nodes[slot].left, lo, key, fuel - 1) && order_pass(
        nodes,
        nodes[slot].right,
        key,
        hi,
        fuel - 1,
    )
}

/// Follows the child links down from `link` and counts the nodes met; no
/// number where there are more than `usize` can count.
pub(crate) fn count_nodes(nodes: &Vec<Node>, link: Option<usize>, fuel: usize) -> (count: Option<usize>)
    ensures
        match count {
            Some(met) => met == nodes_below(nodes@, link, fuel as nat),
            None => nodes_below(nodes@, link, fuel as nat) > usize::MAX,
        },
    decreases fuel,
{
    let slot = match link {
        None => {
            return Some(0);
        },
        Some(slot) => slot,
    };
    if fuel == 0 || slot >= nodes.len() {
        return Some(0);
    }
    let left = match count_nodes(nodes, nodes[slot].left, fuel - 1) {
        None => {
            return None;
        },
        Some(met) => met,
    };
    let right = match count_nodes(nodes, nodes[slot].right, fuel - 1) {
        None => {
            return None;
        },
        Some(met) => met,
    };
    match left.checked_add(right) {
        None => None,
        Some(both) => both.checked_add(1),
    }
}

/// In a linked outline without a slot twice, every node names its parent,
/// and no node hangs on both sides of another.
pub proof fn lemma_links_sound(nodes: Seq<Node>, t: Shape, parent: Option<usize>, fuel: nat)
    requires
        linked(nodes, t, parent),
        t.distinct(),
        t.height() <= fuel,
    ensures
        links_sound(nodes, t.root(), parent, fuel),
    decreases t,
{
    if let Shape::Fork { left, at, right } = t {
        lemma_fork(*left, at, *right);
        lemma_links_sound(nodes, *left, Some(at), (fuel - 1) as nat);
        lemma_links_sound(nodes, *right, Some(at), (fuel - 1) as nat);
        if left.root() is Some && right.root() is Some {
            lemma_top(*left);
            lemma_top(*right);
        }
    }
}

/// In a linked and balanced outline every node is level and holds the
/// height that its children give it.
pub proof fn lemma_levels_sound(nodes: Seq<Node>, t: Shape, parent: Option<usize>, fuel: nat)
    requires
        linked(nodes, t, parent),
        t.balanced(),
        t.height() <= fuel,
    ensures
        levels_sound(nodes, t.root(), fuel),
        held_height(nodes, t.root()) == t.height(),
        housed_link(nodes, t.root()),
    decreases t,
{
    if let Shape::Fork { left, at, right } = t {
        lemma_fork(*left, at, *right);
        lemma_levels_sound(nodes, *left, Some(at), (fuel - 1) as nat);
        lemma_levels_sound(nodes, *right, Some(at), (fuel - 1) as nat);
    }
}

/// In a linked outline in search order the keys lie between the bounds
/// that the keys above them set.
pub proof fn lemma_order_sound(
    nodes: Seq<Node>,
    t: Shape,
    parent: Option<usize>,
    lo: int,
    hi: int,
    fuel: nat,
)
    requires
        linked(nodes, t, parent),
        ordered(nodes, t, lo, hi),
        t.height() <= fuel,
    ensures
        order_sound(nodes, t.root(), lo, hi, fuel),
    decreases t,
{
    if let Shape::Fork { left, at, right } = t {
        let key = nodes[at as int].key as int;
        lemma_fork(*left, at, *right);
        lemma_order_sound(nodes, *left, Some(at), lo, key, (fuel - 1) as nat);
        lemma_order_sound(nodes, *right, Some(at), key, hi, (fuel - 1) as nat);
    }
}

/// The ways down through a linked outline meet as many nodes as it has slots.
pub proof fn lemma_nodes_below(nodes: Seq<Node>, t: Shape, parent: Option<usize>, fuel: nat)
    requires
        linked(nodes, t, parent),
        t.height() <= fuel,
    ensures
        nodes_below(nodes, t.root(), fuel) == t.size(),
    decreases t,
{
    if let Shape::Fork { left, at, right } = t {
        lemma_fork(*left, at, *right);
        lemma_nodes_below(nodes, *left, Some(at), (fuel - 1) as nat);
        lemma_nodes_below(nodes, *right, Some(at), (fuel - 1) as nat);
    }
}

impl AVLTree {
    /// What an audit of the tree finds: a message for each kind of fault.
    pub open spec fn findings(&self) -> Seq<Seq<char>> {
        findings(self.arena(), self.root_link(), self.spec_len())
    }

    /// A well-formed tree is sound in every respect that the audit looks
    /// at: the audit finds nothing, and the tree is level at its root.
    pub proof fn lemma_sound(&self)
        requires
            self.wf(),
        ensures
            self.findings() == Seq::<Seq<char>>::empty(),
            root_level(self.arena(), self.root_link()),
            links_sound(self.arena(), self.root_link(), None, self.arena().len()),
            levels_sound(self.arena(), self.root_link(), self.arena().len()),
            order_sound(self.arena(), self.root_link(), floor(), ceiling(), self.arena().len()),
            nodes_below(self.arena(), self.root_link(), self.arena().len()) == self.spec_len(),
    {
        self.lemma_wf();
        self.lemma_names();
        let nodes = self.nodes@;
        let t = self.shape@;
        let fuel = nodes.len();
        lemma_linked_housed(nodes, t, None);
        lemma_shape_fits(t, fuel);
        lemma_links_sound(nodes, t, None, fuel);
        lemma_levels_sound(nodes, t, None, fuel);
        lemma_order_sound(nodes, t, None, floor(), ceiling(), fuel);
        lemma_nodes_below(nodes, t, None, fuel);
        if let Shape::Fork { left, at, right } = t {
            lemma_fork(*left, at, *right);
            lemma_levels_sound(nodes, *left, Some(at), fuel);
            lemma_levels_sound(nodes, *right, Some(at), fuel);
        }
        assert(self.findings() =~= Seq::<Seq<char>>::empty());
    }
}

} // verus!
