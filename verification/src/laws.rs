//! What holds of every filling: the trades are covered by the balances they
//! draw on, they move dollars and assets without making or losing any, they
//! go to the candidates in the order of their priority, and an order that
//! finds no trade rests as it came.

use crate::clients::ClientView;
use crate::matching::can_settle;
use crate::matching::fill;
use crate::matching::pairing;
use crate::matching::reduced;
use crate::matching::run;
use crate::matching::settle;
use crate::matching::step;
use crate::matching::Market;
use crate::matching::Trade;
use crate::orders::candidate_list;
use crate::orders::comes_before;
use crate::orders::indices_of;
use crate::orders::OrderType;
use crate::orders::OrderView;
use vstd::prelude::*;

verus! {

/// Whether the balances of `ledger` cover the trade `t`: buyer and seller
/// are two clients of the ledger, the buyer has the dollars that the trade
/// costs, the seller holds the quantity that is sold, and what each of them
/// receives leaves a balance that 32 bits can hold.
pub open spec fn covered(ledger: Map<Seq<char>, ClientView>, t: Trade) -> bool {
    &&& t.buyer != t.seller
    &&& ledger.contains_key(t.buyer)
    &&& ledger.contains_key(t.seller)
    &&& t.price * t.quantity <= ledger[t.buyer].dollar_balance
    &&& ledger[t.seller].holds(t.asset)
    &&& t.quantity <= ledger[t.seller].holding(t.asset)
    &&& ledger[t.buyer].holds(t.asset)
    &&& ledger[t.buyer].holding(t.asset) + t.quantity <= u32::MAX
    &&& ledger[t.seller].dollar_balance + t.price * t.quantity <= u32::MAX
}

/// Whether each of `trades` is covered by the ledger that the trades before
/// it have left.
pub open spec fn all_covered(ledger: Map<Seq<char>, ClientView>, trades: Seq<Trade>) -> bool
    decreases trades.len(),
{
    trades.len() == 0 || (covered(ledger, trades[0]) && all_covered(
        settle(ledger, trades[0]),
        trades.drop_first(),
    ))
}

/// The ledger after `trades` have been settled, one after the other.
pub open spec fn replay(ledger: Map<Seq<char>, ClientView>, trades: Seq<Trade>) -> Map<
    Seq<char>,
    ClientView,
>
    decreases trades.len(),
{
    if trades.len() == 0 {
        ledger
    } else {
        replay(settle(ledger, trades[0]), trades.drop_first())
    }
}

/// A trade that can be settled is covered: what is asked of the balances
/// before a trade is made is what the trade draws on.
pub proof fn lemma_settled_trade_is_covered(
    ledger: Map<Seq<char>, ClientView>,
    incoming: OrderView,
    side: OrderType,
    resting: OrderView,
)
    requires
        can_settle(ledger, incoming, side, resting),
    ensures
        covered(ledger, pairing(incoming, side, resting)),
{
}

/// A covered trade takes no balance below zero. What the buyer pays is the
/// price times the quantity, and it is what the seller receives; what the
/// seller hands over is the quantity, and it is what the buyer receives. No
/// other holding of the two and no other client's account is changed.
pub proof fn lemma_trade_conserves(ledger: Map<Seq<char>, ClientView>, t: Trade)
    requires
        covered(ledger, t),
    ensures
        ({
            let after = settle(ledger, t);
            &&& after.dom() == ledger.dom()
            &&& 0 <= ledger[t.buyer].dollar_balance - t.price * t.quantity
            &&& 0 <= ledger[t.seller].holding(t.asset) - t.quantity
            &&& ledger[t.buyer].dollar_balance - after[t.buyer].dollar_balance == t.price
                * t.quantity
            &&& after[t.seller].dollar_balance - ledger[t.seller].dollar_balance == t.price
                * t.quantity
            &&& after[t.buyer].holding(t.asset) - ledger[t.buyer].holding(t.asset) == t.quantity
            &&& ledger[t.seller].holding(t.asset) - after[t.seller].holding(t.asset) == t.quantity
            &&& forall|name: Seq<char>|
                ledger.contains_key(name) && name != t.buyer && name != t.seller ==> after[name]
                    == ledger[name]
            &&& forall|asset: Seq<char>|
                asset != t.asset ==> after[t.buyer].holds(asset) == ledger[t.buyer].holds(asset)
                    && after[t.buyer].asset_balances[asset] == ledger[t.buyer].asset_balances[asset]
                    && after[t.seller].holds(asset) == ledger[t.seller].holds(asset)
                    && after[t.seller].asset_balances[asset]
                    == ledger[t.seller].asset_balances[asset]
        }),
{
    let after = settle(ledger, t);
    assert(after.dom() =~= ledger.dom());
}

/// The trades of a filling are covered, each by the ledger that the trades
/// before it have left, and the ledger at the end is the one that they leave.
/// So no trade of a filling takes a balance below zero.
pub proof fn lemma_fill_trades_are_covered(
    ledger: Map<Seq<char>, ClientView>,
    incoming: OrderView,
    side: OrderType,
    candidates: Seq<OrderView>,
)
    ensures
        all_covered(ledger, fill(ledger, incoming, side, candidates).trades),
        fill(ledger, incoming, side, candidates).ledger == replay(
            ledger,
            fill(ledger, incoming, side, candidates).trades,
        ),
    decreases candidates.len(),
{
    if candidates.len() == 0 || incoming.value == 0 {
    } else if !can_settle(ledger, incoming, side, candidates[0]) {
        lemma_fill_trades_are_covered(ledger, incoming, side, candidates.drop_first());
    } else {
        let t = pairing(incoming, side, candidates[0]);
        lemma_settled_trade_is_covered(ledger, incoming, side, candidates[0]);
        let rest = fill(
            settle(ledger, t),
            reduced(incoming, t.quantity),
            side,
            candidates.drop_first(),
        );
        lemma_fill_trades_are_covered(
            settle(ledger, t),
            reduced(incoming, t.quantity),
            side,
            candidates.drop_first(),
        );
        let trades = fill(ledger, incoming, side, candidates).trades;
        assert(trades[0] == t);
        assert(trades.drop_first() =~= rest.trades);
    }
}

/// What a filling leaves of the incoming order is what it asked for less
/// what the trades gave it, and no trade is for more than either order
/// asked for.
pub proof fn lemma_fill_quantities(
    ledger: Map<Seq<char>, ClientView>,
    incoming: OrderView,
    side: OrderType,
    candidates: Seq<OrderView>,
)
    ensures
        fill(ledger, incoming, side, candidates).remaining + traded(
            fill(ledger, incoming, side, candidates).trades,
        ) == incoming.value,
    decreases candidates.len(),
{
    if candidates.len() == 0 || incoming.value == 0 {
    } else if !can_settle(ledger, incoming, side, candidates[0]) {
        lemma_fill_quantities(ledger, incoming, side, candidates.drop_first());
    } else {
        let t = pairing(incoming, side, candidates[0]);
        let rest = fill(
            settle(ledger, t),
            reduced(incoming, t.quantity),
            side,
            candidates.drop_first(),
        );
        lemma_fill_quantities(
            settle(ledger, t),
            reduced(incoming, t.quantity),
            side,
            candidates.drop_first(),
        );
        let trades = fill(ledger, incoming, side, candidates).trades;
        assert(trades[0] == t);
        assert(trades.drop_first() =~= rest.trades);
    }
}

/// The quantity that `trades` move in all.
pub open spec fn traded(trades: Seq<Trade>) -> int
    decreases trades.len(),
{
    if trades.len() == 0 {
        0
    } else {
        trades[0].quantity + traded(trades.drop_first())
    }
}

/// Whether none of `candidates` can be settled with `incoming` on `ledger`.
pub open spec fn none_settles(
    ledger: Map<Seq<char>, ClientView>,
    incoming: OrderView,
    side: OrderType,
    candidates: Seq<OrderView>,
) -> bool {
    forall|j: int|
        0 <= j < candidates.len() ==> !can_settle(ledger, incoming, side, #[trigger] candidates[j])
}

/// The first trade of a filling is made with the first candidate that can
/// be settled: every candidate before it was tried and passed over. And
/// where the incoming order asks for something and some candidate can be
/// settled, there is a trade.
pub proof fn lemma_first_trade_has_priority(
    ledger: Map<Seq<char>, ClientView>,
    incoming: OrderView,
    side: OrderType,
    candidates: Seq<OrderView>,
)
    ensures
        ({
            let trades = fill(ledger, incoming, side, candidates).trades;
            &&& trades.len() > 0 ==> exists|k: int|
                0 <= k < candidates.len() && none_settles(
                    ledger,
                    incoming,
                    side,
                    candidates.take(k),
                ) && can_settle(ledger, incoming, side, #[trigger] candidates[k]) && trades[0]
                    == pairing(incoming, side, candidates[k])
            &&& trades.len() == 0 ==> incoming.value == 0 || none_settles(
                ledger,
                incoming,
                side,
                candidates,
            )
        }),
    decreases candidates.len(),
{
    let trades = fill(ledger, incoming, side, candidates).trades;
    if candidates.len() == 0 || incoming.value == 0 {
    } else if !can_settle(ledger, incoming, side, candidates[0]) {
        let tail = candidates.drop_first();
        lemma_first_trade_has_priority(ledger, incoming, side, tail);
        if trades.len() > 0 {
            let k = choose|k: int|
                0 <= k < tail.len() && none_settles(ledger, incoming, side, tail.take(k))
                    && can_settle(ledger, incoming, side, #[trigger] tail[k]) && trades[0]
                    == pairing(incoming, side, tail[k]);
            assert forall|j: int| 0 <= j < candidates.take(k + 1).len() implies !can_settle(
                ledger,
                incoming,
                side,
                #[trigger] candidates.take(k + 1)[j],
            ) by {
                if j > 0 {
                    assert(candidates.take(k + 1)[j] == tail.take(k)[j - 1]);
                }
            }
            assert(candidates[k + 1] == tail[k]);
        } else {
            assert forall|j: int| 0 <= j < candidates.len() implies !can_settle(
                ledger,
                incoming,
                side,
                #[trigger] candidates[j],
            ) by {
                if j > 0 {
                    assert(candidates[j] == tail[j - 1]);
                }
            }
        }
    } else {
        assert(candidates.take(0).len() == 0);
        assert(trades[0] == pairing(incoming, side, candidates[0]));
    }
}

/// Whether `trades` were made with resting orders in the order of their
/// priority: each at a lower price than the next, or at the same price with
/// a resting order of lower index.
pub open spec fn in_priority_order(trades: Seq<Trade>) -> bool {
    forall|i: int, j: int|
        0 <= i < j < trades.len() ==> (#[trigger] trades[i]).price < (#[trigger] trades[j]).price
            || (trades[i].price == trades[j].price && trades[i].resting < trades[j].resting)
}

/// Whether `candidates` stand in the order of their priority.
pub open spec fn by_priority(candidates: Seq<OrderView>) -> bool {
    forall|i: int, j: int|
        0 <= i < j < candidates.len() ==> comes_before(
            #[trigger] candidates[i],
            #[trigger] candidates[j],
        )
}

/// Every trade of a filling is made with one of the candidates, at its
/// price.
pub proof fn lemma_trades_are_with_candidates(
    ledger: Map<Seq<char>, ClientView>,
    incoming: OrderView,
    side: OrderType,
    candidates: Seq<OrderView>,
)
    ensures
        forall|i: int|
            0 <= i < fill(ledger, incoming, side, candidates).trades.len() ==> is_trade_with_one(
                #[trigger] fill(ledger, incoming, side, candidates).trades[i],
                candidates,
            ),
    decreases candidates.len(),
{
    let trades = fill(ledger, incoming, side, candidates).trades;
    if candidates.len() == 0 || incoming.value == 0 {
    } else {
        let tail = candidates.drop_first();
        let settled = can_settle(ledger, incoming, side, candidates[0]);
        let t = pairing(incoming, side, candidates[0]);
        let rest = if settled {
            fill(settle(ledger, t), reduced(incoming, t.quantity), side, tail)
        } else {
            fill(ledger, incoming, side, tail)
        };
        if settled {
            lemma_trades_are_with_candidates(
                settle(ledger, t),
                reduced(incoming, t.quantity),
                side,
                tail,
            );
        } else {
            lemma_trades_are_with_candidates(ledger, incoming, side, tail);
        }
        assert forall|i: int| 0 <= i < trades.len() implies is_trade_with_one(
            #[trigger] trades[i],
            candidates,
        ) by {
            if settled && i == 0 {
                assert(is_trade_with(trades[0], candidates[0]));
            } else {
                let i0 = if settled { i - 1 } else { i };
                assert(trades[i] == rest.trades[i0]);
                let j = choose|j: int|
                    0 <= j < tail.len() && is_trade_with(rest.trades[i0], #[trigger] tail[j]);
                assert(tail[j] == candidates[j + 1]);
            }
        }
    }
}

/// Whether `t` is a trade with the resting order `resting`, at its price.
pub open spec fn is_trade_with(t: Trade, resting: OrderView) -> bool {
    t.resting == resting.index && t.price == resting.order_price
}

/// Whether `t` is a trade with one of `candidates`, at its price.
pub open spec fn is_trade_with_one(t: Trade, candidates: Seq<OrderView>) -> bool {
    exists|j: int| 0 <= j < candidates.len() && is_trade_with(t, #[trigger] candidates[j])
}

/// Where the candidates stand in the order of their priority, so do the
/// trades of the filling: of two resting orders at one price that both
/// trade, the one with the lower index trades first.
pub proof fn lemma_trades_follow_priority(
    ledger: Map<Seq<char>, ClientView>,
    incoming: OrderView,
    side: OrderType,
    candidates: Seq<OrderView>,
)
    requires
        by_priority(candidates),
    ensures
        in_priority_order(fill(ledger, incoming, side, candidates).trades),
    decreases candidates.len(),
{
    let trades = fill(ledger, incoming, side, candidates).trades;
    if candidates.len() == 0 || incoming.value == 0 {
    } else {
        let tail = candidates.drop_first();
        assert forall|i: int, j: int| 0 <= i < j < tail.len() implies comes_before(
            #[trigger] tail[i],
            #[trigger] tail[j],
        ) by {
            assert(tail[i] == candidates[i + 1] && tail[j] == candidates[j + 1]);
        }
        let settled = can_settle(ledger, incoming, side, candidates[0]);
        let t = pairing(incoming, side, candidates[0]);
        if settled {
            let next_ledger = settle(ledger, t);
            let next = reduced(incoming, t.quantity);
            let rest = fill(next_ledger, next, side, tail);
            lemma_trades_follow_priority(next_ledger, next, side, tail);
            lemma_trades_are_with_candidates(next_ledger, next, side, tail);
            assert forall|i: int, j: int| 0 <= i < j < trades.len() implies (
            #[trigger] trades[i]).price < (#[trigger] trades[j]).price || (trades[i].price
                == trades[j].price && trades[i].resting < trades[j].resting) by {
                assert(trades[j] == rest.trades[j - 1]);
                if i == 0 {
                    let k = choose|k: int|
                        0 <= k < tail.len() && is_trade_with(rest.trades[j - 1], #[trigger] tail[k]);
                    assert(tail[k] == candidates[k + 1]);
                    assert(comes_before(candidates[0], candidates[k + 1]));
                } else {
                    assert(trades[i] == rest.trades[i - 1]);
                }
            }
        } else {
            lemma_trades_follow_priority(ledger, incoming, side, tail);
        }
    }
}

/// Where none of the candidates can be settled, and so too where there is
/// none, the filling changes nothing: no trade, the ledger as it was, and
/// the incoming order asking for all that it asked for.
pub proof fn lemma_fill_without_match(
    ledger: Map<Seq<char>, ClientView>,
    incoming: OrderView,
    side: OrderType,
    candidates: Seq<OrderView>,
)
    requires
        none_settles(ledger, incoming, side, candidates),
    ensures
        fill(ledger, incoming, side, candidates).ledger == ledger,
        fill(ledger, incoming, side, candidates).remaining == incoming.value,
        fill(ledger, incoming, side, candidates).trades.len() == 0,
        fill(ledger, incoming, side, candidates).completed.len() == 0,
        fill(ledger, incoming, side, candidates).updated.len() == 0,
    decreases candidates.len(),
{
    if candidates.len() == 0 || incoming.value == 0 {
    } else {
        let tail = candidates.drop_first();
        assert(!can_settle(ledger, incoming, side, candidates[0]));
        assert forall|j: int| 0 <= j < tail.len() implies !can_settle(
            ledger,
            incoming,
            side,
            #[trigger] tail[j],
        ) by {
            assert(tail[j] == candidates[j + 1]);
        }
        lemma_fill_without_match(ledger, incoming, side, tail);
    }
}

/// An order to buy that asks for something, and for which no candidate of
/// the book of selling orders can be settled, rests in the book of buying
/// orders as it came, with the quantity and the price it came with; the book
/// of selling orders and the ledger stay as they were.
pub proof fn lemma_unmatched_buy_rests(m: Market, incoming: OrderView)
    requires
        incoming.operation == OrderType::Buy,
        incoming.value > 0,
        none_settles(
            m.ledger,
            incoming,
            OrderType::Buy,
            candidate_list(m.sell_orders, incoming, OrderType::Buy),
        ),
    ensures
        step(m, incoming) == (Market {
            buy_orders: m.buy_orders.insert(incoming.index, incoming),
            sell_orders: m.sell_orders,
            ledger: m.ledger,
        }),
{
    let candidates = candidate_list(m.sell_orders, incoming, OrderType::Buy);
    lemma_fill_without_match(m.ledger, incoming, OrderType::Buy, candidates);
    let end = fill(m.ledger, incoming, OrderType::Buy, candidates);
    assert(end.completed =~= Seq::<OrderView>::empty());
    assert(end.updated =~= Seq::<OrderView>::empty());
    assert(m.sell_orders.remove_keys(indices_of(end.completed)) =~= m.sell_orders);
}

/// An order to sell that asks for something, and for which no candidate of
/// the book of buying orders can be settled, rests in the book of selling
/// orders as it came, with the quantity and the price it came with; the book
/// of buying orders and the ledger stay as they were.
pub proof fn lemma_unmatched_sell_rests(m: Market, incoming: OrderView)
    requires
        incoming.operation == OrderType::Sell,
        incoming.value > 0,
        none_settles(
            m.ledger,
            incoming,
            OrderType::Sell,
            candidate_list(m.buy_orders, incoming, OrderType::Sell),
        ),
    ensures
        step(m, incoming) == (Market {
            buy_orders: m.buy_orders,
            sell_orders: m.sell_orders.insert(incoming.index, incoming),
            ledger: m.ledger,
        }),
{
    let candidates = candidate_list(m.buy_orders, incoming, OrderType::Sell);
    lemma_fill_without_match(m.ledger, incoming, OrderType::Sell, candidates);
    let end = fill(m.ledger, incoming, OrderType::Sell, candidates);
    assert(end.completed =~= Seq::<OrderView>::empty());
    assert(end.updated =~= Seq::<OrderView>::empty());
    assert(m.buy_orders.remove_keys(indices_of(end.completed)) =~= m.buy_orders);
}

/// The trades that are made when `incoming` comes to the market.
pub open spec fn step_trades(m: Market, incoming: OrderView) -> Seq<Trade> {
    match incoming.operation {
        OrderType::Buy => fill(
            m.ledger,
            incoming,
            OrderType::Buy,
            candidate_list(m.sell_orders, incoming, OrderType::Buy),
        ).trades,
        OrderType::Sell => fill(
            m.ledger,
            incoming,
            OrderType::Sell,
            candidate_list(m.buy_orders, incoming, OrderType::Sell),
        ).trades,
        OrderType::IsNotOrderType => Seq::empty(),
    }
}

/// The trades that are made when the orders of `stream` come to the market,
/// one after the other.
pub open spec fn run_trades(m: Market, stream: Seq<OrderView>) -> Seq<Trade>
    decreases stream.len(),
{
    if stream.len() == 0 {
        Seq::empty()
    } else {
        step_trades(m, stream[0]).add(run_trades(step(m, stream[0]), stream.drop_first()))
    }
}

/// Trades that are covered one after the other are covered when taken as
/// one sequence, and leave the same ledger.
pub proof fn lemma_covered_in_sequence(
    ledger: Map<Seq<char>, ClientView>,
    first: Seq<Trade>,
    then: Seq<Trade>,
)
    requires
        all_covered(ledger, first),
        all_covered(replay(ledger, first), then),
    ensures
        all_covered(ledger, first.add(then)),
        replay(ledger, first.add(then)) == replay(replay(ledger, first), then),
    decreases first.len(),
{
    if first.len() == 0 {
        assert(first.add(then) =~= then);
    } else {
        lemma_covered_in_sequence(settle(ledger, first[0]), first.drop_first(), then);
        assert(first.add(then).drop_first() =~= first.drop_first().add(then));
        assert(first.add(then)[0] == first[0]);
    }
}

/// All through a run, every trade is covered by the ledger that the trades
/// before it have left, and the ledger at the end is the one that they
/// leave. So at no time of a run is a balance taken below zero.
pub proof fn lemma_run_trades_are_covered(m: Market, stream: Seq<OrderView>)
    ensures
        all_covered(m.ledger, run_trades(m, stream)),
        run(m, stream).ledger == replay(m.ledger, run_trades(m, stream)),
    decreases stream.len(),
{
    if stream.len() > 0 {
        let incoming = stream[0];
        match incoming.operation {
            OrderType::Buy => {
                lemma_fill_trades_are_covered(
                    m.ledger,
                    incoming,
                    OrderType::Buy,
                    candidate_list(m.sell_orders, incoming, OrderType::Buy),
                );
            },
            OrderType::Sell => {
                lemma_fill_trades_are_covered(
                    m.ledger,
                    incoming,
                    OrderType::Sell,
                    candidate_list(m.buy_orders, incoming, OrderType::Sell),
                );
            },
            OrderType::IsNotOrderType => {},
        }
        lemma_run_trades_are_covered(step(m, incoming), stream.drop_first());
        lemma_covered_in_sequence(
            m.ledger,
            step_trades(m, incoming),
            run_trades(step(m, incoming), stream.drop_first()),
        );
    }
}

} // verus!
