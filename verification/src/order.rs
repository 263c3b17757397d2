//! Orders, sides and the actions a feed can submit.

use vstd::prelude::*;
use vstd::std_specs::cmp::PartialEqSpecImpl;
use vstd::string::*;

verus! {

/// A price, counted in ticks.
pub type Price = u32;

/// A quantity, counted in lots.
pub type Size = u32;

/// Which side of the book an order rests on.
#[derive(Clone, Copy, Debug, PartialEq, Eq, Structural)]
pub enum Side {
    Bids,
    Asks,
}

impl Default for Side {
    fn default() -> (side: Side)
        ensures
            side == Side::Bids,
    {
        Side::Bids
    }
}

/// What a caller asks the book to do with an order.
#[derive(Clone, Copy, Debug, PartialEq, Eq, Structural)]
pub enum Submit {
    Insert,
    Remove,
    Update,
}

/// The lower-case form of a text.
pub uninterp spec fn lowercase(text: Seq<char>) -> Seq<char>;

/// The lower-case form of a text.
///
/// Calls `str::to_lowercase`. The contract gives the result a name and
/// claims nothing else of it: which characters the standard library maps to
/// which is not stated here.
#[verifier::external_body]
fn to_lowercase(text: &str) -> (lower: String)
    ensures
        lower@ == lowercase(text@),
{
    text.to_lowercase()
}

/// The action that a word in lower case names, if it names one.
pub open spec fn action_of(word: Seq<char>) -> Option<Submit> {
    if word == "insert"@ || word == "add"@ || word == "append"@ {
        Some(Submit::Insert)
    } else if word == "remove"@ || word == "delete"@ {
        Some(Submit::Remove)
    } else if word == "update"@ || word == "change"@ {
        Some(Submit::Update)
    } else {
        None
    }
}

/// The action that a word in lower case names, if it names one.
pub fn action_named(word: &str) -> (action: Option<Submit>)
    ensures
        action == action_of(word@),
{
    let word = String::from_str(word);
    if word == String::from_str("insert") || word == String::from_str("add") || word
        == String::from_str("append") {
        Some(Submit::Insert)
    } else if word == String::from_str("remove") || word == String::from_str("delete") {
        Some(Submit::Remove)
    } else if word == String::from_str("update") || word == String::from_str("change") {
        Some(Submit::Update)
    } else {
        None
    }
}

/// What `parse_query` says of a word that names no action.
pub open spec fn invalid_query(action: Seq<char>) -> Seq<char> {
    "Invalid query action "@ + action
}

/// The action that a word names, whatever its case: `insert`, `add` and
/// `append` name an insert, `remove` and `delete` a remove, `update` and
/// `change` an update. Any other word is refused with a message.
pub fn parse_query(action: String) -> (parsed: Result<Submit, String>)
    ensures
        match parsed {
            Ok(named) => action_of(lowercase(action@)) == Some(named),
            Err(message) => action_of(lowercase(action@)) is None && message@ == invalid_query(
                action@,
            ),
        },
{
    let lower = to_lowercase(action.as_str());
    match action_named(lower.as_str()) {
        Some(named) => Ok(named),
        None => {
            let mut message = String::from_str("Invalid query action ");
            message.append(action.as_str());
            Err(message)
        },
    }
}

/// A limit order as handed to the book.
#[derive(Debug)]
pub struct Order {
    pub uid: String,
    pub side: Side,
    pub price: Price,
    pub size: Size,
    pub timestamp: String,
}

/// The mathematical value of an [`Order`]: its strings as character sequences.
pub struct OrderView {
    pub uid: Seq<char>,
    pub side: Side,
    pub price: Price,
    pub size: Size,
    pub timestamp: Seq<char>,
}

impl OrderView {
    /// The same order with another size.
    pub open spec fn with_size(self, size: Size) -> OrderView {
        OrderView { size, ..self }
    }
}

impl View for Order {
    type V = OrderView;

    open spec fn view(&self) -> OrderView {
        OrderView {
            uid: self.uid@,
            side: self.side,
            price: self.price,
            size: self.size,
            timestamp: self.timestamp@,
        }
    }
}

/// The uid that [`Order::default`] gives.
pub open spec fn default_uid() -> Seq<char> {
    "default_uid"@
}

/// The timestamp that [`Order::default`] gives.
pub open spec fn default_timestamp() -> Seq<char> {
    "default timestamp"@
}

impl Order {
    /// Builds an order; a missing side is `Bids`, a missing price or size is zero.
    pub fn new(
        uid: String,
        side: Option<Side>,
        price: Option<Price>,
        size: Option<Size>,
        timestamp: String,
    ) -> (order: Order)
        ensures
            order@ == (OrderView {
                uid: uid@,
                side: match side {
                    Some(s) => s,
                    None => Side::Bids,
                },
                price: match price {
                    Some(p) => p,
                    None => 0,
                },
                size: match size {
                    Some(s) => s,
                    None => 0,
                },
                timestamp: timestamp@,
            }),
    {
        let side = match side {
            Some(s) => s,
            None => Side::default(),
        };
        let price: Price = match price {
            Some(p) => p,
            None => 0,
        };
        let size: Size = match size {
            Some(s) => s,
            None => 0,
        };
        Order { uid, side, price, size, timestamp }
    }
}

impl Default for Order {
    fn default() -> (order: Order)
        ensures
            order@ == (OrderView {
                uid: default_uid(),
                side: Side::Bids,
                price: 0,
                size: 0,
                timestamp: default_timestamp(),
            }),
    {
        Order {
            uid: String::from_str("default_uid"),
            side: Side::default(),
            price: 0,
            size: 0,
            timestamp: String::from_str("default timestamp"),
        }
    }
}

impl Clone for Order {
    fn clone(&self) -> (copy: Order)
        ensures
            copy@ == self@,
    {
        Order {
            uid: self.uid.clone(),
            side: self.side,
            price: self.price,
            size: self.size,
            timestamp: self.timestamp.clone(),
        }
    }
}

impl PartialEq for Order {
    fn eq(&self, other: &Order) -> (same: bool) {
        self.uid == other.uid && self.side == other.side && self.price == other.price
            && self.size == other.size && self.timestamp == other.timestamp
    }
}

impl PartialEqSpecImpl for Order {
    open spec fn obeys_eq_spec() -> bool {
        true
    }

    open spec fn eq_spec(&self, other: &Order) -> bool {
        self@ == other@
    }
}

} // verus!
