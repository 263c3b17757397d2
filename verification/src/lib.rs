//! A passive limit order book for one instrument.
//!
//! Resting orders are kept per side in a height-balanced search tree keyed by
//! price; each price level holds its orders in arrival order. An index from
//! order uid to side and price makes cancels and size edits cheap.
//!
//! Prices and sizes are unsigned fixed-point quantities: a price counts ticks,
//! a size counts lots. Every public operation carries a contract over the
//! mathematical model of the book, and the invariants of the trees and of the
//! book are proved to hold after each of them.

pub mod order;
pub mod order_stack;
pub mod shape;
pub mod links;
pub mod rotate;
pub mod climb;
pub mod detach;
pub mod avl_tree;
pub mod iter;
pub mod audit;
pub mod levels;
pub mod index;
pub mod model;
pub mod clock;
pub mod orderbook;
pub mod display;
