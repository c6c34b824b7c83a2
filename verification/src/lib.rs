//! A price-time priority limit order book with a two-phase evaluate / apply
//! execution model.
//!
//! The layers, leaves first: [`list`] is a doubly linked list with stable node
//! handles; [`level`] is the queue of the orders at one price, with the sum of
//! what remains of them; [`side`] is the price levels of the bids or of the
//! asks, best price first; [`ob`] is the book, which evaluates operations into
//! instructions and applies instructions. [`order`] is what the book needs to
//! know of an order. [`model`] is the book as contracts see it; [`laws`] holds
//! what is proved of that model, and [`agreement`] the proof that applying an
//! evaluated batch leaves the book as the evaluation said. [`flat`] holds facts
//! about sequences of groups. [`hash`] is a fast hasher for short keys.

pub mod agreement;
pub mod flat;
pub mod hash;
pub mod laws;
pub mod level;
pub mod list;
pub mod model;
pub mod ob;
pub mod order;
pub mod side;

pub use level::Level;
pub use list::{List, NodeRef};
pub use model::Msg;
pub use ob::{Instruction, Match, Operation, OrderBook};
pub use order::{BasicOrder, OrderInterface};
pub use side::{OrderRef, Side};
