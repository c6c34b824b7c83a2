//! What the book needs to know of an order.
//!
//! The book is generic in the order record. It reads an order through the six
//! methods of [`OrderInterface`], and contracts speak of an order through its
//! view, an [`OrderView`].

use vstd::prelude::*;

verus! {

/// An order as contracts see it.
pub ghost struct OrderView {
    /// The identifier, unique among the orders of one book.
    pub id: Seq<char>,
    /// The side: `true` for a buy, `false` for a sell.
    pub is_buy: bool,
    /// The limit price.
    pub price: u64,
    /// The quantity that the order was created with. It never changes.
    pub quantity: u64,
    /// The quantity that is not filled yet.
    pub remaining: u64,
}

impl OrderView {
    /// This order after `quantity` more of it has been filled.
    pub open spec fn filled(self, quantity: u64) -> OrderView {
        OrderView { remaining: (self.remaining - quantity) as u64, ..self }
    }

    /// An order may rest in a book when part of it is unfilled, and not more
    /// than the whole.
    pub open spec fn can_rest(self) -> bool {
        0 < self.remaining <= self.quantity
    }
}

/// The capabilities through which the book uses an order record.
pub trait OrderInterface: View<V = OrderView> + Sized {
    /// The identifier of the order.
    fn id(&self) -> (r: &String)
        ensures
            r@ == self@.id,
    ;

    /// The side of the order.
    fn is_buy(&self) -> (r: bool)
        ensures
            r == self@.is_buy,
    ;

    /// The limit price.
    fn price(&self) -> (r: u64)
        ensures
            r == self@.price,
    ;

    /// The quantity that the order was created with. A fill does not change it.
    fn quantity(&self) -> (r: u64)
        ensures
            r == self@.quantity,
    ;

    /// The quantity that is not filled yet.
    fn remaining(&self) -> (r: u64)
        ensures
            r == self@.remaining,
    ;

    /// Fills `quantity` of what remains, and changes nothing else.
    fn fill(&mut self, quantity: u64)
        requires
            quantity <= old(self)@.remaining,
        ensures
            final(self)@ == old(self)@.filled(quantity),
    ;
}

/// A plain order record.
#[derive(Debug, PartialEq, Eq)]
pub struct BasicOrder {
    id: String,
    is_buy: bool,
    price: u64,
    quantity: u64,
    remaining: u64,
}

impl View for BasicOrder {
    type V = OrderView;

    closed spec fn view(&self) -> OrderView {
        OrderView {
            id: self.id@,
            is_buy: self.is_buy,
            price: self.price,
            quantity: self.quantity,
            remaining: self.remaining,
        }
    }
}

impl BasicOrder {
    /// A new order, none of it filled.
    pub fn new(id: &str, is_buy: bool, price: u64, quantity: u64) -> (r: Self)
        ensures
            r@ == (OrderView { id: id@, is_buy, price, quantity, remaining: quantity }),
    {
        BasicOrder { id: id.to_owned(), is_buy, price, quantity, remaining: quantity }
    }
}

impl OrderInterface for BasicOrder {
    fn id(&self) -> (r: &String) {
        &self.id
    }

    fn is_buy(&self) -> (r: bool) {
        self.is_buy
    }

    fn price(&self) -> (r: u64) {
        self.price
    }

    fn quantity(&self) -> (r: u64) {
        self.quantity
    }

    fn remaining(&self) -> (r: u64) {
        self.remaining
    }

    fn fill(&mut self, quantity: u64) {
        self.remaining = self.remaining - quantity;
    }
}

} // verus!
