//! A continuous double auction: client accounts, resting order books and the
//! matching of incoming orders against them under price-time priority.

use vstd::prelude::*;

pub mod clients;
pub mod errors;
pub mod key_order;
pub mod laws;
pub mod matching;
pub mod orders;
pub mod string_map;
pub mod text;

verus! {

/// A quantity of an asset.
pub type Volume = u32;

/// A price, in dollars for one unit of an asset.
pub type Price = u32;

/// A collection that is filled from records, one item from each line.
pub trait DataParser: Sized {
    /// What one record holds.
    type Item;

    /// Why a record could not be read.
    type Err;

    /// A collection with nothing in it.
    fn new() -> Self;

    /// Puts `data` into the collection as the item with the number `index`.
    fn insert(&mut self, index: usize, data: Self::Item);

    /// Reads one item from a record.
    fn parse(line: &str) -> Result<Self::Item, Self::Err>;

    /// Takes out of the collection the items that stand for those given.
    fn remove(&mut self, orders: Vec<Self::Item>);
}

} // verus!
