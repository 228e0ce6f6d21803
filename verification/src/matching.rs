//! The matching of incoming orders against the resting orders of the other
//! side, and the settling of the trades that result.

use crate::DataParser;
use crate::clients::ClientView;
use crate::clients::Clients;
use crate::orders::Order;
use crate::orders::OrderType;
use crate::orders::OrderView;
use crate::orders::Orders;
use crate::orders::candidate_list;
use crate::orders::comes_before;
use crate::orders::indices_of;
use crate::orders::is_candidate_list;
use crate::orders::is_listing;
use crate::orders::listing_of;
use crate::orders::views;
use crate::orders::with_quantities;
use vstd::prelude::*;

verus! {

/// The exchange of a quantity of an asset for dollars between the client of
/// an incoming order and the client of an order that rested in a book.
pub struct Trade {
    /// The index of the order that rested.
    pub resting: usize,
    /// The index of the order that came in.
    pub incoming: usize,
    pub buyer: Seq<char>,
    pub seller: Seq<char>,
    pub asset: Seq<char>,
    /// The dollars paid for one unit: the limit price of the order that
    /// rested.
    pub price: u32,
    pub quantity: u32,
}

/// The trade that `incoming`, taken as an order on `side`, would make with
/// `resting`: at the price of `resting`, for as much as both orders still
/// ask for.
pub open spec fn pairing(incoming: OrderView, side: OrderType, resting: OrderView) -> Trade {
    Trade {
        resting: resting.index,
        incoming: incoming.index,
        buyer: if side == OrderType::Buy {
            incoming.client_name
        } else {
            resting.client_name
        },
        seller: if side == OrderType::Buy {
            resting.client_name
        } else {
            incoming.client_name
        },
        asset: resting.asset,
        price: resting.order_price,
        quantity: if incoming.value <= resting.value {
            incoming.value
        } else {
            resting.value
        },
    }
}

/// Whether the trade of `incoming` with `resting` can be settled on
/// `ledger`. The two orders are from different clients and for one asset;
/// both clients have accounts; the buyer has the dollars for, and the seller
/// holds, the quantity of the trade, at the price of `resting`; and what the
/// trade adds to either account leaves a balance that 32 bits can hold, the
/// buyer having a holding of the asset already.
pub open spec fn can_settle(
    ledger: Map<Seq<char>, ClientView>,
    incoming: OrderView,
    side: OrderType,
    resting: OrderView,
) -> bool {
    let t = pairing(incoming, side, resting);
    &&& incoming.client_name != resting.client_name
    &&& incoming.asset == resting.asset
    &&& ledger.contains_key(t.buyer)
    &&& ledger.contains_key(t.seller)
    &&& ledger[t.buyer].can_pay(t.price, t.quantity)
    &&& ledger[t.seller].can_deliver(t.asset, t.quantity)
    &&& ledger[t.buyer].can_take_asset(t.asset, t.quantity)
    &&& ledger[t.seller].can_take_dollars(t.price, t.quantity)
}

/// The ledger after `t` is settled: the buyer has paid the price of the
/// quantity to the seller, and the seller has handed the quantity of the
/// asset to the buyer.
pub open spec fn settle(ledger: Map<Seq<char>, ClientView>, t: Trade) -> Map<
    Seq<char>,
    ClientView,
> {
    ledger.insert(t.buyer, ledger[t.buyer].bought(t.asset, t.price, t.quantity)).insert(
        t.seller,
        ledger[t.seller].sold(t.asset, t.price, t.quantity),
    )
}

/// How the filling of an incoming order ended.
pub struct Outcome {
    /// The ledger, with every trade settled.
    pub ledger: Map<Seq<char>, ClientView>,
    /// What the incoming order still asks for.
    pub remaining: u32,
    /// The trades, in the order in which they were made.
    pub trades: Seq<Trade>,
    /// The resting orders that were filled whole, as they rested.
    pub completed: Seq<OrderView>,
    /// The resting orders that were filled in part, each with the quantity
    /// that is left of it.
    pub updated: Seq<OrderView>,
}

/// The order `o` with `quantity` less to ask for.
pub open spec fn reduced(o: OrderView, quantity: u32) -> OrderView {
    OrderView { value: (o.value - quantity) as u32, ..o }
}

/// Fills `incoming`, taken as an order on `side`, from `candidates`, trying
/// them from the first to the last until `incoming` asks for nothing more. A
/// candidate whose trade cannot be settled is passed over; every other one
/// trades, and the next is tried against the ledger and the quantity that
/// this trade left.
pub open spec fn fill(
    ledger: Map<Seq<char>, ClientView>,
    incoming: OrderView,
    side: OrderType,
    candidates: Seq<OrderView>,
) -> Outcome
    decreases candidates.len(),
{
    if candidates.len() == 0 || incoming.value == 0 {
        Outcome {
            ledger,
            remaining: incoming.value,
            trades: Seq::empty(),
            completed: Seq::empty(),
            updated: Seq::empty(),
        }
    } else if !can_settle(ledger, incoming, side, candidates[0]) {
        fill(ledger, incoming, side, candidates.drop_first())
    } else {
        let resting = candidates[0];
        let t = pairing(incoming, side, resting);
        let rest = fill(
            settle(ledger, t),
            reduced(incoming, t.quantity),
            side,
            candidates.drop_first(),
        );
        Outcome {
            ledger: rest.ledger,
            remaining: rest.remaining,
            trades: seq![t].add(rest.trades),
            completed: if t.quantity == resting.value {
                seq![resting].add(rest.completed)
            } else {
                rest.completed
            },
            updated: if t.quantity == resting.value {
                rest.updated
            } else {
                seq![reduced(resting, t.quantity)].add(rest.updated)
            },
        }
    }
}

/// Decides `can_settle`.
pub fn settles(clients: &Clients, incoming: &Order, side: OrderType, resting: &Order) -> (r: bool)
    ensures
        r == can_settle(clients@, incoming@, side, resting@),
{
    if incoming.client_name == resting.client_name {
        return false;
    }
    if !(incoming.asset == resting.asset) {
        return false;
    }
    // the order that asks for less asks for the quantity of the trade
    let smaller = if incoming.value <= resting.value {
        incoming
    } else {
        resting
    };
    let quantity: u32 = smaller.value;
    let (buyer_name, seller_name) = match side {
        OrderType::Buy => (&incoming.client_name, &resting.client_name),
        _ => (&resting.client_name, &incoming.client_name),
    };
    let buyer = match clients.client.get(buyer_name.as_str()) {
        Some(c) => c,
        None => {
            return false;
        },
    };
    let seller = match clients.client.get(seller_name.as_str()) {
        Some(c) => c,
        None => {
            return false;
        },
    };
    buyer.check_buy_error(resting, smaller).is_ok() && seller.check_sell_error(smaller).is_ok()
        && buyer.check_asset_room(resting.asset.as_str(), quantity) && seller.check_dollar_room(
        resting.order_price,
        quantity,
    )
}

/// Settles the trade of `incoming` with `resting` on the ledger.
pub fn settle_trade(clients: &mut Clients, incoming: &Order, side: OrderType, resting: &Order)
    requires
        can_settle(old(clients)@, incoming@, side, resting@),
    ensures
        final(clients)@ == settle(old(clients)@, pairing(incoming@, side, resting@)),
{
    let ghost t = pairing(incoming@, side, resting@);
    let quantity: u32 = if incoming.value <= resting.value {
        incoming.value
    } else {
        resting.value
    };
    let (buyer_name, seller_name) = match side {
        OrderType::Buy => (&incoming.client_name, &resting.client_name),
        _ => (&resting.client_name, &incoming.client_name),
    };
    match clients.get_mut(buyer_name.as_str()) {
        Some(buyer) => {
            buyer.buy(resting, quantity);
        },
        None => {},
    }
    match clients.get_mut(seller_name.as_str()) {
        Some(seller) => {
            seller.sell(resting, quantity);
        },
        None => {},
    }
}

/// Fills `order`, taken as an order on `side`, from the resting orders of
/// `book`. The candidates are found once, before any trade. Every trade is
/// settled on the ledger, and `order` is left asking for what no trade gave
/// it. Handed back are the resting orders that were filled whole, as they
/// rested, and those filled in part, each with what is left of it; `book`
/// itself is not changed.
pub fn fill_order(book: &Orders, clients: &mut Clients, order: &mut Order, side: OrderType) -> (r: (
    Vec<Order>,
    Vec<Order>,
))
    requires
        book.wf(),
    ensures
        is_candidate_list(book@, old(order)@, side, candidate_list(book@, old(order)@, side)),
        ({
            let end = fill(
                old(clients)@,
                old(order)@,
                side,
                candidate_list(book@, old(order)@, side),
            );
            &&& final(clients)@ == end.ledger
            &&& final(order)@ == (OrderView { value: end.remaining, ..old(order)@ })
            &&& views(r.0@) == end.completed
            &&& views(r.1@) == end.updated
        }),
{
    let found = book.candidates(order, side);
    let ghost candidates = views(found@);
    let ghost end = fill(clients@, order@, side, candidates);
    assert(candidates.skip(0) =~= candidates);
    let mut completed_orders: Vec<Order> = Vec::new();
    let mut updated_orders: Vec<Order> = Vec::new();
    let n: usize = found.len();
    let mut i: usize = 0;
    while i < n && order.value > 0
        invariant
            n == found.len(),
            candidates == views(found@),
            i <= n,
            order@ == (OrderView { value: order.value, ..old(order)@ }),
            ({
                let rest = fill(clients@, order@, side, candidates.skip(i as int));
                &&& end.ledger == rest.ledger
                &&& end.remaining == rest.remaining
                &&& end.completed == views(completed_orders@).add(rest.completed)
                &&& end.updated == views(updated_orders@).add(rest.updated)
            }),
        decreases n - i,
    {
        let resting = &found[i];
        proof {
            assert(candidates.skip(i as int)[0] == resting@);
            assert(candidates.skip(i as int).drop_first() =~= candidates.skip(i + 1));
        }
        let ghost rest = fill(clients@, order@, side, candidates.skip(i as int));
        if settles(clients, order, side, resting) {
            let ghost t = pairing(order@, side, resting@);
            settle_trade(clients, order, side, resting);
            if order.value >= resting.value {
                order.value = order.value - resting.value;
                let ghost before = views(completed_orders@);
                completed_orders.push(resting.clone());
                proof {
                    let next = fill(clients@, order@, side, candidates.skip(i + 1));
                    assert(views(completed_orders@) =~= before.push(resting@));
                    assert(before.add(seq![resting@].add(next.completed)) =~= before.push(
                        resting@,
                    ).add(next.completed));
                }
            } else {
                let left = Order {
                    index: resting.index,
                    client_name: resting.client_name.clone(),
                    operation: resting.operation,
                    asset: resting.asset.clone(),
                    order_price: resting.order_price,
                    value: resting.value - order.value,
                };
                order.value = 0;
                let ghost before = views(updated_orders@);
                updated_orders.push(left);
                proof {
                    let next = fill(clients@, order@, side, candidates.skip(i + 1));
                    assert(views(updated_orders@) =~= before.push(left@));
                    assert(before.add(seq![left@].add(next.updated)) =~= before.push(left@).add(
                        next.updated,
                    ));
                }
            }
        }
        i = i + 1;
    }
    proof {
        let rest = fill(clients@, order@, side, candidates.skip(i as int));
        assert(views(completed_orders@).add(rest.completed) =~= views(completed_orders@));
        assert(views(updated_orders@).add(rest.updated) =~= views(updated_orders@));
    }
    (completed_orders, updated_orders)
}

/// Fills the buying order `order` from the book of selling orders.
pub fn buy_assets(sell_orders: &Orders, clients: &mut Clients, order: &mut Order) -> (r: (
    Vec<Order>,
    Vec<Order>,
))
    requires
        sell_orders.wf(),
    ensures
        is_candidate_list(
            sell_orders@,
            old(order)@,
            OrderType::Buy,
            candidate_list(sell_orders@, old(order)@, OrderType::Buy),
        ),
        ({
            let end = fill(
                old(clients)@,
                old(order)@,
                OrderType::Buy,
                candidate_list(sell_orders@, old(order)@, OrderType::Buy),
            );
            &&& final(clients)@ == end.ledger
            &&& final(order)@ == (OrderView { value: end.remaining, ..old(order)@ })
            &&& views(r.0@) == end.completed
            &&& views(r.1@) == end.updated
        }),
{
    fill_order(sell_orders, clients, order, OrderType::Buy)
}

/// Fills the selling order `order` from the book of buying orders.
pub fn sell_assets(buy_orders: &Orders, clients: &mut Clients, order: &mut Order) -> (r: (
    Vec<Order>,
    Vec<Order>,
))
    requires
        buy_orders.wf(),
    ensures
        is_candidate_list(
            buy_orders@,
            old(order)@,
            OrderType::Sell,
            candidate_list(buy_orders@, old(order)@, OrderType::Sell),
        ),
        ({
            let end = fill(
                old(clients)@,
                old(order)@,
                OrderType::Sell,
                candidate_list(buy_orders@, old(order)@, OrderType::Sell),
            );
            &&& final(clients)@ == end.ledger
            &&& final(order)@ == (OrderView { value: end.remaining, ..old(order)@ })
            &&& views(r.0@) == end.completed
            &&& views(r.1@) == end.updated
        }),
{
    fill_order(buy_orders, clients, order, OrderType::Sell)
}

/// Candidates stand under indices that differ from one another.
pub proof fn lemma_candidates_distinct(
    book: Map<usize, OrderView>,
    incoming: OrderView,
    side: OrderType,
    list: Seq<OrderView>,
)
    requires
        is_candidate_list(book, incoming, side, list),
    ensures
        forall|i: int, j: int|
            0 <= i < j < list.len() ==> (#[trigger] list[i]).index != (#[trigger] list[j]).index,
{
    assert forall|i: int, j: int| 0 <= i < j < list.len() implies (#[trigger] list[i]).index != (
    #[trigger] list[j]).index by {
        assert(comes_before(list[i], list[j]));
    }
}

/// Whether `left` is the order `whole` but for the quantity that it asks for.
pub open spec fn is_rest_of(left: OrderView, whole: OrderView) -> bool {
    left == (OrderView { value: left.value, ..whole })
}

/// Whether `left` is one of `candidates` but for the quantity that it asks
/// for.
pub open spec fn is_rest_of_one(left: OrderView, candidates: Seq<OrderView>) -> bool {
    exists|j: int| 0 <= j < candidates.len() && is_rest_of(left, #[trigger] candidates[j])
}

/// Every resting order that a filling hands back is one of the candidates:
/// one filled whole is handed back as it is, one filled in part with less to
/// ask for and nothing else changed. No candidate is handed back both ways.
pub proof fn lemma_fill_marks_candidates(
    ledger: Map<Seq<char>, ClientView>,
    incoming: OrderView,
    side: OrderType,
    candidates: Seq<OrderView>,
)
    requires
        forall|i: int, j: int|
            0 <= i < j < candidates.len() ==> (#[trigger] candidates[i]).index != (
            #[trigger] candidates[j]).index,
    ensures
        ({
            let end = fill(ledger, incoming, side, candidates);
            &&& forall|a: int|
                0 <= a < end.completed.len() ==> candidates.contains(#[trigger] end.completed[a])
            &&& forall|b: int|
                0 <= b < end.updated.len() ==> is_rest_of_one(#[trigger] end.updated[b], candidates)
            &&& forall|a: int, b: int|
                0 <= a < end.completed.len() && 0 <= b < end.updated.len() ==> (
                #[trigger] end.completed[a]).index != (#[trigger] end.updated[b]).index
        }),
    decreases candidates.len(),
{
    let end = fill(ledger, incoming, side, candidates);
    if candidates.len() == 0 || incoming.value == 0 {
    } else {
        let resting = candidates[0];
        let tail = candidates.drop_first();
        assert forall|i: int, j: int| 0 <= i < j < tail.len() implies (#[trigger] tail[i]).index != (
        #[trigger] tail[j]).index by {
            assert(tail[i] == candidates[i + 1] && tail[j] == candidates[j + 1]);
        }
        let settled = can_settle(ledger, incoming, side, resting);
        let t = pairing(incoming, side, resting);
        let rest = if settled {
            fill(settle(ledger, t), reduced(incoming, t.quantity), side, tail)
        } else {
            fill(ledger, incoming, side, tail)
        };
        if settled {
            lemma_fill_marks_candidates(settle(ledger, t), reduced(incoming, t.quantity), side, tail);
        } else {
            lemma_fill_marks_candidates(ledger, incoming, side, tail);
        }
        let whole = settled && t.quantity == resting.value;
        let part = settled && t.quantity != resting.value;
        assert forall|a: int| 0 <= a < end.completed.len() implies candidates.contains(
            #[trigger] end.completed[a],
        ) by {
            if whole && a == 0 {
                assert(candidates[0] == end.completed[a]);
            } else {
                let a0 = if whole { a - 1 } else { a };
                assert(end.completed[a] == rest.completed[a0]);
                let j = choose|j: int| 0 <= j < tail.len() && tail[j] == rest.completed[a0];
                assert(candidates[j + 1] == end.completed[a]);
            }
        }
        assert forall|b: int| 0 <= b < end.updated.len() implies is_rest_of_one(
            #[trigger] end.updated[b],
            candidates,
        ) by {
            if part && b == 0 {
                assert(is_rest_of(end.updated[b], candidates[0]));
            } else {
                let b0 = if part { b - 1 } else { b };
                assert(end.updated[b] == rest.updated[b0]);
                let j = choose|j: int|
                    0 <= j < tail.len() && is_rest_of(rest.updated[b0], #[trigger] tail[j]);
                assert(is_rest_of(end.updated[b], candidates[j + 1]));
            }
        }
        assert forall|a: int, b: int|
            0 <= a < end.completed.len() && 0 <= b < end.updated.len() implies (
        #[trigger] end.completed[a]).index != (#[trigger] end.updated[b]).index by {
            let a0 = if whole { a - 1 } else { a };
            let b0 = if part { b - 1 } else { b };
            if whole && a == 0 {
                assert(end.updated[b] == rest.updated[b0]);
                let j = choose|j: int|
                    0 <= j < tail.len() && is_rest_of(rest.updated[b0], #[trigger] tail[j]);
                assert(tail[j] == candidates[j + 1]);
            } else if part && b == 0 {
                assert(end.completed[a] == rest.completed[a0]);
                let j = choose|j: int| 0 <= j < tail.len() && tail[j] == rest.completed[a0];
                assert(tail[j] == candidates[j + 1]);
            } else {
                assert(end.completed[a] == rest.completed[a0]);
                assert(end.updated[b] == rest.updated[b0]);
            }
        }
    }
}

/// The two books and the ledger.
pub struct Market {
    pub buy_orders: Map<usize, OrderView>,
    pub sell_orders: Map<usize, OrderView>,
    pub ledger: Map<Seq<char>, ClientView>,
}

/// The book of the incoming order's own side once the order has been
/// filled: the order rests there with what it still asks for, unless it asks
/// for nothing more.
pub open spec fn rested(book: Map<usize, OrderView>, incoming: OrderView, remaining: u32) -> Map<
    usize,
    OrderView,
> {
    if remaining > 0 {
        book.insert(incoming.index, OrderView { value: remaining, ..incoming })
    } else {
        book
    }
}

/// The book of the other side once an incoming order has been filled from
/// it: the orders filled whole are gone, and those filled in part ask for
/// what is left of them.
pub open spec fn cleared(book: Map<usize, OrderView>, end: Outcome) -> Map<usize, OrderView> {
    with_quantities(book.remove_keys(indices_of(end.completed)), end.updated)
}

/// The market after `incoming` has come in: it is filled from the book of
/// the other side, and what is left of it rests in the book of its own side.
/// An order that is neither to buy nor to sell changes nothing.
pub open spec fn step(m: Market, incoming: OrderView) -> Market {
    match incoming.operation {
        OrderType::Buy => {
            let end = fill(
                m.ledger,
                incoming,
                OrderType::Buy,
                candidate_list(m.sell_orders, incoming, OrderType::Buy),
            );
            Market {
                buy_orders: rested(m.buy_orders, incoming, end.remaining),
                sell_orders: cleared(m.sell_orders, end),
                ledger: end.ledger,
            }
        },
        OrderType::Sell => {
            let end = fill(
                m.ledger,
                incoming,
                OrderType::Sell,
                candidate_list(m.buy_orders, incoming, OrderType::Sell),
            );
            Market {
                buy_orders: cleared(m.buy_orders, end),
                sell_orders: rested(m.sell_orders, incoming, end.remaining),
                ledger: end.ledger,
            }
        },
        OrderType::IsNotOrderType => m,
    }
}

/// The market after the orders of `stream` have come in, one after the
/// other.
pub open spec fn run(m: Market, stream: Seq<OrderView>) -> Market
    decreases stream.len(),
{
    if stream.len() == 0 {
        m
    } else {
        run(step(m, stream[0]), stream.drop_first())
    }
}

/// The market before any order has come in: empty books, and the ledger as
/// given.
pub open spec fn opening(ledger: Map<Seq<char>, ClientView>) -> Market {
    Market { buy_orders: Map::empty(), sell_orders: Map::empty(), ledger }
}

/// Takes one incoming order to the market: fills it from the book of the
/// other side, takes from that book what was filled, and lets what is left of
/// the order rest in the book of its own side.
pub fn match_order(
    buy_orders: &mut Orders,
    sell_orders: &mut Orders,
    clients: &mut Clients,
    order: Order,
)
    requires
        old(buy_orders).wf(),
        old(sell_orders).wf(),
        order.operation != OrderType::IsNotOrderType,
    ensures
        final(buy_orders).wf(),
        final(sell_orders).wf(),
        ({
            let m = step(
                Market {
                    buy_orders: old(buy_orders)@,
                    sell_orders: old(sell_orders)@,
                    ledger: old(clients)@,
                },
                order@,
            );
            &&& final(buy_orders)@ == m.buy_orders
            &&& final(sell_orders)@ == m.sell_orders
            &&& final(clients)@ == m.ledger
        }),
{
    let mut order = order;
    match order.operation {
        OrderType::Buy => {
            take_order(sell_orders, buy_orders, clients, order, OrderType::Buy);
        },
        _ => {
            take_order(buy_orders, sell_orders, clients, order, OrderType::Sell);
        },
    }
}

/// Fills `order` from the book `other`, takes from `other` what was filled,
/// and lets what is left of `order` rest in the book `own`.
fn take_order(
    other: &mut Orders,
    own: &mut Orders,
    clients: &mut Clients,
    order: Order,
    side: OrderType,
)
    requires
        old(other).wf(),
        old(own).wf(),
    ensures
        final(other).wf(),
        final(own).wf(),
        ({
            let end = fill(
                old(clients)@,
                order@,
                side,
                candidate_list(old(other)@, order@, side),
            );
            &&& final(clients)@ == end.ledger
            &&& final(other)@ == cleared(old(other)@, end)
            &&& final(own)@ == rested(old(own)@, order@, end.remaining)
        }),
{
    let mut order = order;
    let ghost incoming = order@;
    let ghost book = other@;
    let ghost candidates = candidate_list(book, incoming, side);
    let ghost end = fill(clients@, incoming, side, candidates);
    let (completed_orders, updated_orders) = fill_order(other, clients, &mut order, side);
    proof {
        lemma_candidates_distinct(book, incoming, side, candidates);
        lemma_fill_marks_candidates(old(clients)@, incoming, side, candidates);
        let kept = book.remove_keys(indices_of(end.completed));
        assert forall|b: int| 0 <= b < end.updated.len() implies kept.contains_key(
            (#[trigger] end.updated[b]).index,
        ) by {
            let j = choose|j: int|
                0 <= j < candidates.len() && is_rest_of(end.updated[b], #[trigger] candidates[j]);
            assert(book.contains_key(candidates[j].index));
            if indices_of(end.completed).contains(end.updated[b].index) {
                let a = choose|a: int|
                    0 <= a < end.completed.len() && (#[trigger] end.completed[a]).index
                        == end.updated[b].index;
                assert(false);
            }
        }
    }
    if order.value > 0 {
        let index: usize = order.index;
        own.insert(index, order);
    }
    if !completed_orders.is_empty() {
        other.remove(completed_orders);
    } else {
        assert(other@ =~= other@.remove_keys(indices_of(end.completed)));
    }
    if !updated_orders.is_empty() {
        other.update_orders(updated_orders);
    }
}

/// Takes the orders of `orders` to a market with empty books, in ascending
/// order of their indices, and leaves in `clients` the ledger that results.
pub fn match_orders(clients: &mut Clients, orders: Orders)
    requires
        orders.wf(),
        orders.sides_known(),
    ensures
        final(clients)@ == run(opening(old(clients)@), listing_of(orders@)).ledger,
{
    let stream = orders.listing();
    let ghost list = views(stream@);
    assert(list.skip(0) =~= list);
    let mut buy_orders = Orders::new();
    let mut sell_orders = Orders::new();
    let n: usize = stream.len();
    let mut i: usize = 0;
    while i < n
        invariant
            n == stream.len(),
            list == views(stream@),
            is_listing(orders@, list),
            orders.sides_known(),
            i <= n,
            buy_orders.wf(),
            sell_orders.wf(),
            run(opening(old(clients)@), list) == run(
                Market { buy_orders: buy_orders@, sell_orders: sell_orders@, ledger: clients@ },
                list.skip(i as int),
            ),
        decreases n - i,
    {
        proof {
            assert(list.skip(i as int)[0] == stream[i as int]@);
            assert(list.skip(i as int).drop_first() =~= list.skip(i + 1));
            assert(orders@.contains_key(list[i as int].index));
        }
        match_order(&mut buy_orders, &mut sell_orders, clients, stream[i].clone());
        i = i + 1;
    }
}

} // verus!
