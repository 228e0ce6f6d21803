//! Orders, the records they are read from, and the books they rest in.

use crate::errors::OrderErrors;
use crate::DataParser;
use crate::text::chars_of;
use crate::text::cut;
use crate::text::field_spans;
use crate::text::fields;
use crate::text::parse_unsigned;
use crate::text::piece;
use crate::text::texts;
use crate::text::unsigned_decimal;
use std::collections::BTreeMap;
use vstd::prelude::*;
use vstd::std_specs::btree::axiom_increasing_seq_meaning;
use vstd::std_specs::btree::increasing_seq;
use vstd::std_specs::cmp::OrdSpec;
use vstd::std_specs::iter::IteratorSpec;

verus! {

/// The side of the market that an order is on.
#[derive(Debug, Copy, Clone, PartialEq, Eq, Structural)]
pub enum OrderType {
    Buy,
    Sell,
    IsNotOrderType,
}

/// An order to buy or to sell some quantity of an asset at a limit price.
#[derive(Debug, PartialEq, Eq)]
pub struct Order {
    /// The place of the order in the stream it arrived in; the key under
    /// which a book keeps it.
    pub index: usize,
    pub client_name: String,
    pub operation: OrderType,
    pub asset: String,
    pub order_price: u32,
    /// The quantity that is still to be traded.
    pub value: u32,
}

/// What an order says, with its texts as sequences of characters.
pub struct OrderView {
    pub index: usize,
    pub client_name: Seq<char>,
    pub operation: OrderType,
    pub asset: Seq<char>,
    pub order_price: u32,
    pub value: u32,
}

impl View for Order {
    type V = OrderView;

    open spec fn view(&self) -> OrderView {
        OrderView {
            index: self.index,
            client_name: self.client_name@,
            operation: self.operation,
            asset: self.asset@,
            order_price: self.order_price,
            value: self.value,
        }
    }
}

impl Clone for Order {
    fn clone(&self) -> (r: Self)
        ensures
            r == *self,
    {
        Order {
            index: self.index,
            client_name: self.client_name.clone(),
            operation: self.operation,
            asset: self.asset.clone(),
            order_price: self.order_price,
            value: self.value,
        }
    }
}

/// The side that the text of the second field of an order record names:
/// `b` for buying and `s` for selling.
pub open spec fn side_of(c: char) -> OrderType {
    if c == 'b' {
        OrderType::Buy
    } else if c == 's' {
        OrderType::Sell
    } else {
        OrderType::IsNotOrderType
    }
}

/// What an order record says. Its first five fields are the client, the
/// side, the asset, the limit price and the quantity; further fields are
/// passed over. The order that is read has no place in a stream yet: its
/// index is 0.
pub open spec fn order_record(line: Seq<char>) -> Result<OrderView, OrderErrors> {
    let f = fields(line);
    if f.len() < 5 {
        Err(OrderErrors::ParseInsufficentInputError)
    } else if f[1].len() != 1 {
        Err(OrderErrors::ParseOperationError)
    } else if side_of(f[1][0]) == OrderType::IsNotOrderType {
        Err(OrderErrors::NoSuchOperationSymbolError)
    } else if unsigned_decimal(f[3]) is None {
        Err(OrderErrors::ParseItemPriceError)
    } else if unsigned_decimal(f[4]) is None {
        Err(OrderErrors::ParseItemVolumeError)
    } else {
        Ok(
            OrderView {
                index: 0,
                client_name: f[0],
                operation: side_of(f[1][0]),
                asset: f[2],
                order_price: unsigned_decimal(f[3])->0,
                value: unsigned_decimal(f[4])->0,
            },
        )
    }
}

impl Order {
    /// Reads an order from a record.
    pub fn from_str(s: &str) -> (r: Result<Order, OrderErrors>)
        ensures
            match r {
                Ok(order) => order_record(s@) == Ok::<OrderView, OrderErrors>(order@),
                Err(e) => order_record(s@) == Err::<OrderView, OrderErrors>(e),
            },
    {
        let chars = chars_of(s);
        let spans = field_spans(&chars);
        let ghost f = fields(s@);
        assert(f == cut(chars@, spans@));
        if spans.len() < 5 {
            return Err(OrderErrors::ParseInsufficentInputError);
        }
        assert(forall|k: int|
            0 <= k < 5 ==> #[trigger] f[k] == s@.subrange(spans[k].0 as int, spans[k].1 as int));
        let client_name = piece(s, spans[0].0, spans[0].1);
        if spans[1].1 - spans[1].0 != 1 {
            return Err(OrderErrors::ParseOperationError);
        }
        let symbol: char = chars[spans[1].0];
        assert(symbol == f[1][0]);
        let operation = if symbol == 'b' {
            OrderType::Buy
        } else if symbol == 's' {
            OrderType::Sell
        } else {
            return Err(OrderErrors::NoSuchOperationSymbolError);
        };
        let asset = piece(s, spans[2].0, spans[2].1);
        let order_price = match parse_unsigned(&chars, spans[3].0, spans[3].1) {
            Some(n) => n,
            None => {
                return Err(OrderErrors::ParseItemPriceError);
            },
        };
        let value = match parse_unsigned(&chars, spans[4].0, spans[4].1) {
            Some(n) => n,
            None => {
                return Err(OrderErrors::ParseItemVolumeError);
            },
        };
        Ok(Order { index: 0, client_name, operation, asset, order_price, value })
    }
}

impl std::str::FromStr for Order {
    type Err = OrderErrors;

    /// Reads an order from a record.
    fn from_str(s: &str) -> (r: Result<Order, OrderErrors>)
        ensures
            match r {
                Ok(order) => order_record(s@) == Ok::<OrderView, OrderErrors>(order@),
                Err(e) => order_record(s@) == Err::<OrderView, OrderErrors>(e),
            },
    {
        Order::from_str(s)
    }
}

/// A book of orders, each under its index.
#[derive(Debug)]
pub struct Orders {
    pub order: BTreeMap<usize, Order>,
}

impl View for Orders {
    type V = Map<usize, OrderView>;

    open spec fn view(&self) -> Map<usize, OrderView> {
        Map::new(|k: usize| self.order@.contains_key(k), |k: usize| self.order@[k]@)
    }
}

/// Whether every order of `book` stands under its own index.
pub open spec fn keyed_by_index(book: Map<usize, OrderView>) -> bool {
    forall|k: usize| book.contains_key(k) ==> (#[trigger] book[k]).index == k
}

impl Orders {
    /// Whether every order of the book stands under its own index.
    pub open spec fn wf(&self) -> bool {
        keyed_by_index(self@)
    }

    /// Reads a stream of orders from the lines of a file, one order from each
    /// line.
    pub fn from_lines(lines: &Vec<String>) -> (r: Result<Orders, OrderErrors>)
        ensures
            match r {
                Ok(orders) => stream_of(texts(lines@)) == Ok::<Map<usize, OrderView>, OrderErrors>(
                    orders@,
                ) && orders.wf(),
                Err(e) => stream_of(texts(lines@)) == Err::<Map<usize, OrderView>, OrderErrors>(e),
            },
    {
        let mut orders = Orders::new();
        let n: usize = lines.len();
        let ghost all = texts(lines@);
        let mut i: usize = 0;
        assert(all.take(0) =~= Seq::<Seq<char>>::empty());
        while i < n
            invariant
                n == lines.len(),
                all == texts(lines@),
                i <= n,
                orders.wf(),
                stream_of(all.take(i as int)) == Ok::<Map<usize, OrderView>, OrderErrors>(orders@),
            decreases n - i,
        {
            proof {
                assert(all.take(i + 1).drop_last() =~= all.take(i as int));
                assert(all.take(i + 1).last() == lines[i as int]@);
            }
            match Order::from_str(lines[i].as_str()) {
                Ok(order) => {
                    orders.insert(i + 1, order);
                },
                Err(e) => {
                    proof {
                        lemma_stream_of_stays_wrong(all, i + 1);
                    }
                    return Err(e);
                },
            }
            i = i + 1;
        }
        assert(all.take(n as int) =~= all);
        Ok(orders)
    }

    /// The order under `order_index`, if there is one, for changing it in
    /// place.
    pub fn get_mut(&mut self, order_index: usize) -> (r: Option<&mut Order>)
        ensures
            match r {
                Some(o) => old(self)@.contains_key(order_index) && o@ == old(self)@[order_index]
                    && final(self)@ == old(self)@.insert(order_index, final(o)@),
                None => !old(self)@.contains_key(order_index) && final(self)@ == old(self)@,
            },
    {
        entry_mut(&mut self.order, order_index)
    }

    /// A copy of the order under `order_index`, if there is one.
    pub fn get(&self, order_index: usize) -> (r: Option<Order>)
        ensures
            match r {
                Some(o) => self@.contains_key(order_index) && o@ == self@[order_index],
                None => !self@.contains_key(order_index),
            },
    {
        match self.order.get(&order_index) {
            Some(o) => Some(o.clone()),
            None => None,
        }
    }

    /// Gives each order that `updated_orders` names by its index the
    /// quantity that stands there.
    pub fn update_orders(&mut self, updated_orders: Vec<Order>)
        requires
            all_present(old(self)@, views(updated_orders@)),
        ensures
            final(self)@ == with_quantities(old(self)@, views(updated_orders@)),
            final(self)@.dom() == old(self)@.dom(),
            old(self).wf() ==> final(self).wf(),
    {
        let n: usize = updated_orders.len();
        let ghost updates = views(updated_orders@);
        let mut i: usize = 0;
        assert(updates.take(0) =~= Seq::<OrderView>::empty());
        while i < n
            invariant
                n == updated_orders.len(),
                updates == views(updated_orders@),
                i <= n,
                all_present(old(self)@, updates),
                self@ == with_quantities(old(self)@, updates.take(i as int)),
                self@.dom() == old(self)@.dom(),
                old(self).wf() ==> self.wf(),
            decreases n - i,
        {
            let ghost before = self@;
            let index: usize = updated_orders[i].index;
            let value: u32 = updated_orders[i].value;
            assert(updates[i as int].index == index && updates[i as int].value == value);
            assert(before.contains_key(index));
            match self.get_mut(index) {
                Some(order) => {
                    order.value = value;
                },
                None => {},
            }
            proof {
                assert(updates.take(i + 1).drop_last() =~= updates.take(i as int));
                assert(updates.take(i + 1).last() == updates[i as int]);
                assert(self@ =~= with_quantity(before, index, value));
                assert(self@.dom() =~= before.dom());
            }
            i = i + 1;
        }
        assert(updates.take(n as int) =~= updates);
    }

    /// The resting orders that `incoming`, taken as an order on `side`, can
    /// trade with, in the order in which it is to try them: by ascending
    /// price, and at one price by ascending index.
    pub fn candidates(&self, incoming: &Order, side: OrderType) -> (r: Vec<Order>)
        requires
            self.wf(),
        ensures
            is_candidate_list(self@, incoming@, side, views(r@)),
            views(r@) == candidate_list(self@, incoming@, side),
    {
        let all = self.listing();
        let ghost book = self@;
        let ghost list = views(all@);
        let n: usize = all.len();
        let mut r: Vec<Order> = Vec::new();
        let mut i: usize = 0;
        while i < n
            invariant
                n == all.len(),
                list == views(all@),
                is_listing(book, list),
                i <= n,
                forall|a: int|
                    0 <= a < r.len() ==> eligible((#[trigger] views(r@)[a]), incoming@, side)
                        && book.contains_key(views(r@)[a].index) && book[views(r@)[a].index]
                        == views(r@)[a],
                forall|a: int|
                    0 <= a < r.len() && i < n ==> (#[trigger] views(r@)[a]).index < list[i as int].index,
                forall|j: int|
                    0 <= j < i && eligible(#[trigger] list[j], incoming@, side) ==> views(r@).contains(
                        list[j],
                    ),
                forall|a: int, b: int|
                    0 <= a < b < r.len() ==> comes_before(
                        #[trigger] views(r@)[a],
                        #[trigger] views(r@)[b],
                    ),
            decreases n - i,
        {
            let resting = &all[i];
            assert(resting@ == list[i as int]);
            let ghost before = views(r@);
            if is_eligible(resting, incoming, side) {
                let mut p: usize = r.len();
                while p > 0 && r[p - 1].order_price > resting.order_price
                    invariant
                        p <= r.len(),
                        before == views(r@),
                        forall|b: int|
                            p <= b < r.len() ==> (#[trigger] before[b]).order_price
                                > resting.order_price,
                    decreases p,
                {
                    p = p - 1;
                }
                r.insert(p, resting.clone());
                proof {
                    let after = views(r@);
                    assert(after =~= before.insert(p as int, resting@));
                    assert forall|a: int, b: int| 0 <= a < b < after.len() implies comes_before(
                        #[trigger] after[a],
                        #[trigger] after[b],
                    ) by {
                        let a0 = if a < p { a } else { a - 1 };
                        let b0 = if b < p { b } else { b - 1 };
                        if a != p {
                            assert(after[a] == before[a0]);
                        }
                        if b != p {
                            assert(after[b] == before[b0]);
                        }
                        if b == p && p > 0 {
                            assert(before[p - 1].order_price <= resting.order_price);
                            if a < p - 1 {
                                assert(comes_before(before[a], before[p - 1]));
                            }
                        }
                    }
                    assert forall|a: int| 0 <= a < after.len() implies eligible(
                        (#[trigger] after[a]),
                        incoming@,
                        side,
                    ) && book.contains_key(after[a].index) && book[after[a].index] == after[a] by {
                        let a0 = if a < p { a } else { a - 1 };
                        if a != p {
                            assert(after[a] == before[a0]);
                        }
                    }
                    assert forall|a: int| 0 <= a < after.len() && i + 1 < n implies (
                    #[trigger] after[a]).index < list[i + 1].index by {
                        let a0 = if a < p { a } else { a - 1 };
                        if a != p {
                            assert(after[a] == before[a0]);
                        }
                    }
                    assert forall|j: int|
                        0 <= j < i + 1 && eligible(
                            #[trigger] list[j],
                            incoming@,
                            side,
                        ) implies after.contains(list[j]) by {
                        if j < i {
                            let a0 = choose|a0: int| 0 <= a0 < before.len() && before[a0] == list[j];
                            let a = if a0 < p { a0 } else { a0 + 1 };
                            assert(after[a] == list[j]);
                        } else {
                            assert(after[p as int] == list[j]);
                        }
                    }
                }
            }
            i = i + 1;
        }
        proof {
            let found = views(r@);
            assert forall|k: usize|
                book.contains_key(k) && eligible(
                    #[trigger] book[k],
                    incoming@,
                    side,
                ) implies found.contains(book[k]) by {
                let j = choose|j: int| 0 <= j < list.len() && list[j] == book[k];
                assert(eligible(list[j], incoming@, side));
            }
            lemma_candidate_list_unique(
                book,
                incoming@,
                side,
                found,
                candidate_list(book, incoming@, side),
            );
        }
        r
    }

    /// Whether every order of the book is to buy or to sell.
    pub open spec fn sides_known(&self) -> bool {
        forall|k: usize|
            self@.contains_key(k) ==> (#[trigger] self@[k]).operation != OrderType::IsNotOrderType
    }

    /// Tests whether the book is fit to be matched as a stream: every order
    /// stands under its own index, and is to buy or to sell.
    pub fn is_stream(&self) -> (r: bool)
        ensures
            r == (self.wf() && self.sides_known()),
    {
        let iter = self.order.iter();
        let ghost all = iter.remaining();
        for kv in it: iter
            invariant
                it.seq() == all,
                forall|j: int|
                    0 <= j < all.len() ==> self.order@.contains_key(*(#[trigger] all[j]).0)
                        && self.order@[*all[j].0] == *all[j].1,
                forall|k: usize| #[trigger]
                    self.order@.contains_key(k) ==> all.contains((&k, &self.order@[k])),
                forall|j: int|
                    0 <= j < it.index() ==> (#[trigger] all[j]).1.index == *all[j].0
                        && all[j].1.operation != OrderType::IsNotOrderType,
        {
            let ghost at = it.index();
            assert(kv == all[at]);
            if kv.1.index != *kv.0 {
                proof {
                    assert(self@.contains_key(*all[at].0));
                    assert(self@[*all[at].0].index != *all[at].0);
                }
                return false;
            }
            match kv.1.operation {
                OrderType::IsNotOrderType => {
                    proof {
                        assert(self@.contains_key(*all[at].0));
                        assert(self@[*all[at].0].operation == OrderType::IsNotOrderType);
                    }
                    return false;
                },
                _ => {},
            }
        }
        proof {
            assert forall|k: usize| self@.contains_key(k) implies (#[trigger] self@[k]).index == k
                && self@[k].operation != OrderType::IsNotOrderType by {
                assert(self.order@.contains_key(k));
                let j = choose|j: int| 0 <= j < all.len() && all[j] == (&k, &self.order@[k]);
                assert(all[j].1.index == *all[j].0);
            }
        }
        true
    }

    /// The orders of the book, in ascending order of their indices.
    pub fn listing(&self) -> (v: Vec<Order>)
        requires
            self.wf(),
        ensures
            is_listing(self@, views(v@)),
            views(v@) == listing_of(self@),
    {
        let mut v: Vec<Order> = Vec::new();
        let iter = self.order.iter();
        let ghost all = iter.remaining();
        proof {
            let keys = all.map_values(|kv: (&usize, &Order)| *kv.0);
            assert forall|s: Seq<usize>| #[trigger] increasing_seq(s) && s =~= keys implies increasing_seq(
                keys,
            ) by {}
            lemma_increasing_keys(keys);
            assert forall|i: int, j: int| 0 <= i < j < all.len() implies *(#[trigger] all[i]).0 < *(
            #[trigger] all[j]).0 by {
                assert(keys[i] == *all[i].0);
                assert(keys[j] == *all[j].0);
            }
        }
        for kv in it: iter
            invariant
                self.wf(),
                it.seq() == all,
                v.len() == it.index(),
                forall|j: int| 0 <= j < v.len() ==> (#[trigger] v[j]) == *all[j].1,
                forall|j: int|
                    0 <= j < all.len() ==> self.order@.contains_key(*(#[trigger] all[j]).0)
                        && self.order@[*all[j].0] == *all[j].1,
                forall|k: usize| #[trigger]
                    self.order@.contains_key(k) ==> all.contains((&k, &self.order@[k])),
                forall|i: int, j: int|
                    0 <= i < j < all.len() ==> *(#[trigger] all[i]).0 < *(#[trigger] all[j]).0,
        {
            v.push(kv.1.clone());
        }
        proof {
            let list = views(v@);
            assert(v.len() == all.len());
            assert forall|i: int| 0 <= i < list.len() implies self@.contains_key(
                (#[trigger] list[i]).index,
            ) && self@[list[i].index] == list[i] by {
                assert(self.order@.contains_key(*all[i].0));
                assert(self@.contains_key(*all[i].0));
                assert(self@[*all[i].0].index == *all[i].0);
            }
            assert forall|k: usize| #[trigger] self@.contains_key(k) implies list.contains(
                self@[k],
            ) by {
                assert(self.order@.contains_key(k));
                let j = choose|j: int| 0 <= j < all.len() && all[j] == (&k, &self.order@[k]);
                assert(list[j] == self@[k]);
            }
            assert forall|i: int, j: int| 0 <= i < j < list.len() implies (#[trigger] list[i]).index
                < (#[trigger] list[j]).index by {
                assert(self@.contains_key(*all[i].0) && self@[*all[i].0].index == *all[i].0);
                assert(self@.contains_key(*all[j].0) && self@[*all[j].0].index == *all[j].0);
            }
            lemma_listing_unique(self@, list, listing_of(self@));
        }
        v
    }
}

/// `BTreeMap::get_mut` on a book: where an order stands under `index`, hands
/// out that order for changing in place, and the book afterwards differs
/// only in what the order was changed to; else hands out nothing and leaves
/// the book as it is.
#[verifier::external_body]
fn entry_mut(book: &mut BTreeMap<usize, Order>, index: usize) -> (r: Option<&mut Order>)
    ensures
        match r {
            Some(o) => old(book)@.contains_key(index) && *o == old(book)@[index] && final(book)@
                == old(book)@.insert(index, *final(o)),
            None => !old(book)@.contains_key(index) && final(book)@ == old(book)@,
        },
{
    book.get_mut(&index)
}

/// Whether the order `resting` can be traded with by `incoming`, taken as an
/// order on `side`: it is for the same asset, from another client, and its
/// price meets that of `incoming`. A buyer takes any price up to its own; a
/// seller takes only prices above its own.
pub open spec fn eligible(resting: OrderView, incoming: OrderView, side: OrderType) -> bool {
    &&& resting.client_name != incoming.client_name
    &&& resting.asset == incoming.asset
    &&& match side {
        OrderType::Buy => resting.order_price <= incoming.order_price,
        OrderType::Sell => resting.order_price > incoming.order_price,
        OrderType::IsNotOrderType => false,
    }
}

/// Whether `a` is to be tried before `b`: at a lower price, or at the same
/// price with a lower index, which is an earlier arrival.
pub open spec fn comes_before(a: OrderView, b: OrderView) -> bool {
    a.order_price < b.order_price || (a.order_price == b.order_price && a.index < b.index)
}

/// Whether `list` holds the orders of `book` that `incoming` can trade with
/// on `side`, each once, in the order in which they are to be tried.
pub open spec fn is_candidate_list(
    book: Map<usize, OrderView>,
    incoming: OrderView,
    side: OrderType,
    list: Seq<OrderView>,
) -> bool {
    &&& forall|i: int|
        0 <= i < list.len() ==> eligible(#[trigger] list[i], incoming, side) && book.contains_key(
            list[i].index,
        ) && book[list[i].index] == list[i]
    &&& forall|k: usize|
        book.contains_key(k) && eligible(#[trigger] book[k], incoming, side) ==> list.contains(
            book[k],
        )
    &&& forall|i: int, j: int|
        0 <= i < j < list.len() ==> comes_before(#[trigger] list[i], #[trigger] list[j])
}

/// Whether `x` stands before `y`: by price and then index, or by index
/// alone.
pub open spec fn before(by_price: bool, x: OrderView, y: OrderView) -> bool {
    if by_price {
        comes_before(x, y)
    } else {
        x.index < y.index
    }
}

/// Two sequences that hold the same orders, each in strictly ascending order
/// by the same measure, are one sequence.
pub proof fn lemma_ascending_unique(a: Seq<OrderView>, b: Seq<OrderView>, by_price: bool)
    requires
        forall|i: int, j: int|
            0 <= i < j < a.len() ==> before(by_price, #[trigger] a[i], #[trigger] a[j]),
        forall|i: int, j: int|
            0 <= i < j < b.len() ==> before(by_price, #[trigger] b[i], #[trigger] b[j]),
        forall|x: OrderView| a.contains(x) <==> b.contains(x),
    ensures
        a == b,
    decreases a.len(),
{
    if a.len() == 0 {
        if b.len() > 0 {
            assert(b.contains(b[0]));
        }
        assert(a =~= b);
    } else if b.len() == 0 {
        assert(a.contains(a[0]));
    } else {
        // the first of each is the least of all, so the two are the same order
        assert(a.contains(a[0]) && b.contains(b[0]));
        let i = choose|i: int| 0 <= i < b.len() && b[i] == a[0];
        let j = choose|j: int| 0 <= j < a.len() && a[j] == b[0];
        if i > 0 && j > 0 {
            assert(before(by_price, b[0], b[i]) && before(by_price, a[0], a[j]));
        }
        assert(a[0] == b[0]);
        let a1 = a.drop_first();
        let b1 = b.drop_first();
        assert forall|x: OrderView| a1.contains(x) <==> b1.contains(x) by {
            if a1.contains(x) {
                let k = choose|k: int| 0 <= k < a1.len() && a1[k] == x;
                assert(a[k + 1] == x);
                assert(before(by_price, a[0], a[k + 1]));
                assert(a.contains(x));
                let m = choose|m: int| 0 <= m < b.len() && b[m] == x;
                assert(m > 0);
                assert(b1[m - 1] == x);
            }
            if b1.contains(x) {
                let k = choose|k: int| 0 <= k < b1.len() && b1[k] == x;
                assert(b[k + 1] == x);
                assert(before(by_price, b[0], b[k + 1]));
                assert(b.contains(x));
                let m = choose|m: int| 0 <= m < a.len() && a[m] == x;
                assert(m > 0);
                assert(a1[m - 1] == x);
            }
        }
        assert forall|i: int, j: int| 0 <= i < j < a1.len() implies before(
            by_price,
            #[trigger] a1[i],
            #[trigger] a1[j],
        ) by {
            assert(a1[i] == a[i + 1] && a1[j] == a[j + 1]);
        }
        assert forall|i: int, j: int| 0 <= i < j < b1.len() implies before(
            by_price,
            #[trigger] b1[i],
            #[trigger] b1[j],
        ) by {
            assert(b1[i] == b[i + 1] && b1[j] == b[j + 1]);
        }
        lemma_ascending_unique(a1, b1, by_price);
        assert(a =~= seq![a[0]].add(a1));
        assert(b =~= seq![b[0]].add(b1));
    }
}

/// A book has one listing.
pub proof fn lemma_listing_unique(book: Map<usize, OrderView>, a: Seq<OrderView>, b: Seq<OrderView>)
    requires
        is_listing(book, a),
        is_listing(book, b),
    ensures
        a == b,
{
    assert forall|x: OrderView| a.contains(x) <==> b.contains(x) by {
        if a.contains(x) {
            let i = choose|i: int| 0 <= i < a.len() && a[i] == x;
            assert(book.contains_key(a[i].index));
        }
        if b.contains(x) {
            let i = choose|i: int| 0 <= i < b.len() && b[i] == x;
            assert(book.contains_key(b[i].index));
        }
    }
    lemma_ascending_unique(a, b, false);
}

/// The orders of `book`, in ascending order of their indices.
pub open spec fn listing_of(book: Map<usize, OrderView>) -> Seq<OrderView> {
    choose|list: Seq<OrderView>| is_listing(book, list)
}

/// A book and an incoming order have one list of candidates.
pub proof fn lemma_candidate_list_unique(
    book: Map<usize, OrderView>,
    incoming: OrderView,
    side: OrderType,
    a: Seq<OrderView>,
    b: Seq<OrderView>,
)
    requires
        is_candidate_list(book, incoming, side, a),
        is_candidate_list(book, incoming, side, b),
    ensures
        a == b,
{
    assert forall|x: OrderView| a.contains(x) <==> b.contains(x) by {
        if a.contains(x) {
            let i = choose|i: int| 0 <= i < a.len() && a[i] == x;
            assert(book.contains_key(a[i].index) && eligible(book[a[i].index], incoming, side));
        }
        if b.contains(x) {
            let i = choose|i: int| 0 <= i < b.len() && b[i] == x;
            assert(book.contains_key(b[i].index) && eligible(book[b[i].index], incoming, side));
        }
    }
    lemma_ascending_unique(a, b, true);
}

/// The orders of `book` that `incoming` can trade with on `side`, in the
/// order in which they are to be tried: by ascending price, and at one price
/// by ascending index.
pub open spec fn candidate_list(book: Map<usize, OrderView>, incoming: OrderView, side: OrderType) -> Seq<
    OrderView,
> {
    choose|list: Seq<OrderView>| is_candidate_list(book, incoming, side, list)
}

/// Decides `eligible`.
pub fn is_eligible(resting: &Order, incoming: &Order, side: OrderType) -> (r: bool)
    ensures
        r == eligible(resting@, incoming@, side),
{
    if resting.client_name == incoming.client_name {
        return false;
    }
    if !(resting.asset == incoming.asset) {
        return false;
    }
    match side {
        OrderType::Buy => resting.order_price <= incoming.order_price,
        OrderType::Sell => resting.order_price > incoming.order_price,
        OrderType::IsNotOrderType => false,
    }
}

/// The stream of orders that the records of `lines` give, or what is wrong
/// with the first record that cannot be read. The order of the first record
/// gets the index 1, that of the next the index 2, and so on.
pub open spec fn stream_of(lines: Seq<Seq<char>>) -> Result<Map<usize, OrderView>, OrderErrors>
    decreases lines.len(),
{
    if lines.len() == 0 {
        Ok(Map::empty())
    } else {
        match stream_of(lines.drop_last()) {
            Err(e) => Err(e),
            Ok(stream) => match order_record(lines.last()) {
                Err(e) => Err(e),
                Ok(o) => Ok(
                    stream.insert(
                        lines.len() as usize,
                        OrderView { index: lines.len() as usize, ..o },
                    ),
                ),
            },
        }
    }
}

/// Where the first `k` records cannot all be read, no more records mend it:
/// what is wrong with them is what is wrong with the whole.
pub proof fn lemma_stream_of_stays_wrong(lines: Seq<Seq<char>>, k: int)
    requires
        0 <= k <= lines.len(),
        stream_of(lines.take(k)) is Err,
    ensures
        stream_of(lines) == stream_of(lines.take(k)),
    decreases lines.len(),
{
    if k == lines.len() {
        assert(lines.take(k) =~= lines);
    } else {
        assert(lines.drop_last().take(k) =~= lines.take(k));
        lemma_stream_of_stays_wrong(lines.drop_last(), k);
    }
}

/// The book with the quantity of the order under `index` set to `value`.
pub open spec fn with_quantity(book: Map<usize, OrderView>, index: usize, value: u32) -> Map<
    usize,
    OrderView,
> {
    book.insert(index, OrderView { value, ..book[index] })
}

/// The book after each of `updates`, from the first to the last, has given
/// its quantity to the order that has its index.
pub open spec fn with_quantities(book: Map<usize, OrderView>, updates: Seq<OrderView>) -> Map<
    usize,
    OrderView,
>
    decreases updates.len(),
{
    if updates.len() == 0 {
        book
    } else {
        with_quantity(
            with_quantities(book, updates.drop_last()),
            updates.last().index,
            updates.last().value,
        )
    }
}

/// Whether the book holds an order under the index of each of `orders`.
pub open spec fn all_present(book: Map<usize, OrderView>, orders: Seq<OrderView>) -> bool {
    forall|i: int| 0 <= i < orders.len() ==> book.contains_key((#[trigger] orders[i]).index)
}

/// The indices of `orders`.
pub open spec fn indices_of(orders: Seq<OrderView>) -> Set<usize> {
    Set::new(|k: usize| exists|i: int| 0 <= i < orders.len() && (#[trigger] orders[i]).index == k)
}

impl DataParser for Orders {
    type Item = Order;

    type Err = OrderErrors;

    /// A book without orders.
    fn new() -> (r: Orders)
        ensures
            r@ == Map::<usize, OrderView>::empty(),
            r.wf(),
    {
        let r = Orders { order: BTreeMap::new() };
        assert(r@ =~= Map::<usize, OrderView>::empty());
        r
    }

    /// Enters `data` under `index`, as the order with that index, in place
    /// of any order that stood there.
    fn insert(&mut self, index: usize, data: Order)
        ensures
            final(self)@ == old(self)@.insert(index, OrderView { index, ..data@ }),
            old(self).wf() ==> final(self).wf(),
    {
        let mut data = data;
        data.index = index;
        self.order.insert(index, data);
        assert(self@ =~= old(self)@.insert(index, OrderView { index, ..data@ }));
    }

    /// Reads an order from a record.
    fn parse(line: &str) -> (r: Result<Order, OrderErrors>)
        ensures
            match r {
                Ok(order) => order_record(line@) == Ok::<OrderView, OrderErrors>(order@),
                Err(e) => order_record(line@) == Err::<OrderView, OrderErrors>(e),
            },
    {
        Order::from_str(line)
    }

    /// Strikes from the book every order that stands under the index of one
    /// of `orders`.
    fn remove(&mut self, orders: Vec<Order>)
        ensures
            final(self)@ == old(self)@.remove_keys(indices_of(views(orders@))),
            old(self).wf() ==> final(self).wf(),
    {
        let n: usize = orders.len();
        let ghost gone = views(orders@);
        let mut i: usize = 0;
        assert(self@ =~= old(self)@.remove_keys(indices_of(gone.take(0))));
        while i < n
            invariant
                n == orders.len(),
                gone == views(orders@),
                i <= n,
                self@ == old(self)@.remove_keys(indices_of(gone.take(i as int))),
            decreases n - i,
        {
            let ghost before = self@;
            let index: usize = orders[i].index;
            self.order.remove(&index);
            proof {
                assert(self@ =~= before.remove(index));
                let done = gone.take(i as int);
                let more = gone.take(i + 1);
                assert(more[i as int].index == index);
                assert forall|k: usize| indices_of(more).contains(k) <==> (indices_of(done).contains(
                    k,
                ) || k == index) by {
                    if indices_of(done).contains(k) {
                        let j = choose|j: int| 0 <= j < done.len() && (#[trigger] done[j]).index == k;
                        assert(more[j].index == k);
                    }
                    if indices_of(more).contains(k) {
                        let j = choose|j: int| 0 <= j < more.len() && (#[trigger] more[j]).index == k;
                        if j < i {
                            assert(done[j].index == k);
                        }
                    }
                }
                assert(self@ =~= old(self)@.remove_keys(indices_of(more)));
            }
            i = i + 1;
        }
        assert(gone.take(n as int) =~= gone);
    }
}

/// Keys in the order in which a `BTreeMap` walks them ascend.
proof fn lemma_increasing_keys(s: Seq<usize>)
    requires
        increasing_seq(s),
    ensures
        forall|i: int, j: int| 0 <= i < j < s.len() ==> s[i] < s[j],
{
    axiom_increasing_seq_meaning(s);
    assert forall|i: int, j: int| 0 <= i < j < s.len() implies s[i] < s[j] by {
        assert(s[i].cmp_spec(&s[j]) is Less);
    }
}

/// What each of `orders` says.
pub open spec fn views(orders: Seq<Order>) -> Seq<OrderView> {
    Seq::new(orders.len(), |i: int| orders[i]@)
}

/// Whether `list` holds the orders of `book`, each once, in ascending order
/// of their indices.
pub open spec fn is_listing(book: Map<usize, OrderView>, list: Seq<OrderView>) -> bool {
    &&& forall|i: int|
        0 <= i < list.len() ==> book.contains_key((#[trigger] list[i]).index) && book[list[i].index]
            == list[i]
    &&& forall|k: usize| #[trigger] book.contains_key(k) ==> list.contains(book[k])
    &&& forall|i: int, j: int|
        0 <= i < j < list.len() ==> (#[trigger] list[i]).index < (#[trigger] list[j]).index
}

} // verus!
