use trade_match::clients::cost;
use trade_match::clients::Asset;
use trade_match::clients::Assets;
use trade_match::clients::Client;
use trade_match::clients::Clients;
use trade_match::errors::ClientErrors;
use trade_match::errors::GeneralErrors;
use trade_match::errors::OrderErrors;
use trade_match::key_order::rank;
use trade_match::key_order::Rank;
use trade_match::orders::Order;
use trade_match::orders::OrderType;
use trade_match::orders::Orders;
use trade_match::string_map::StringMap;
use trade_match::DataParser;

fn account(dollars: u32, a: u32) -> Client {
    let mut asset_balances = Assets::new();
    asset_balances.asset.insert(
        "A".to_string(),
        Asset {
            symbol: "A".to_string(),
            balance: a,
        },
    );
    Client {
        index: 0,
        name: "C".to_string(),
        dollar_balance: dollars,
        asset_balances,
    }
}

fn order_of(asset: &str, price: u32, value: u32) -> Order {
    Order {
        index: 1,
        client_name: "X".to_string(),
        operation: OrderType::Buy,
        asset: asset.to_string(),
        order_price: price,
        value,
    }
}

#[test]
fn the_dollars_are_tested_against_price_times_quantity() {
    let c = account(48, 0);
    assert_eq!(c.check_buy_error(&order_of("A", 8, 1), &order_of("A", 99, 6)), Ok(()));
    assert_eq!(
        c.check_buy_error(&order_of("A", 7, 1), &order_of("A", 1, 7)),
        Err(GeneralErrors::NotEnaughDollars)
    );
    assert_eq!(c.check_buy_error(&order_of("A", 0, 1), &order_of("A", 1, u32::MAX)), Ok(()));
}

#[test]
fn a_cost_beyond_32_bits_is_not_cut_short() {
    assert_eq!(cost(65536, 65536), 4294967296);
    assert_eq!(cost(u32::MAX, u32::MAX), 18446744065119617025);
    let c = account(u32::MAX, 0);
    assert_eq!(
        c.check_buy_error(&order_of("A", 65536, 1), &order_of("A", 1, 65536)),
        Err(GeneralErrors::NotEnaughDollars)
    );
    assert!(!c.check_dollar_room(65536, 65536));
}

#[test]
fn the_holding_is_tested_against_the_quantity() {
    let c = account(0, 5);
    assert_eq!(c.check_sell_error(&order_of("A", 1, 5)), Ok(()));
    assert_eq!(
        c.check_sell_error(&order_of("A", 1, 6)),
        Err(GeneralErrors::NotEnaughAsset)
    );
    assert_eq!(
        c.check_sell_error(&order_of("B", 1, 0)),
        Err(GeneralErrors::GetClientError)
    );
}

#[test]
fn room_is_tested_to_the_last_unit() {
    let c = account(u32::MAX - 10, u32::MAX - 3);
    assert!(c.check_asset_room("A", 3));
    assert!(!c.check_asset_room("A", 4));
    assert!(!c.check_asset_room("B", 0));
    assert!(c.check_dollar_room(5, 2));
    assert!(!c.check_dollar_room(11, 1));
}

#[test]
fn buying_pays_dollars_and_adds_units() {
    let mut c = account(100, 5);
    c.buy(&order_of("A", 7, 1), 3);
    assert_eq!(c.dollar_balance, 79);
    assert_eq!(c.asset_balances.get("A").unwrap().balance, 8);
    assert_eq!(c.asset_balances.get("A").unwrap().symbol, "A");
    assert_eq!(c.name, "C");
}

#[test]
fn selling_takes_units_and_adds_dollars() {
    let mut c = account(100, 5);
    c.sell(&order_of("A", 7, 1), 5);
    assert_eq!(c.dollar_balance, 135);
    assert_eq!(c.asset_balances.get("A").unwrap().balance, 0);
}

#[test]
fn a_holding_is_changed_in_place() {
    let mut holdings = Assets::default();
    assert!(holdings.get("A").is_none());
    assert!(holdings.get_mut("A").is_none());
    holdings.asset.insert(
        "A".to_string(),
        Asset {
            symbol: "A".to_string(),
            balance: 1,
        },
    );
    holdings.get_mut("A").unwrap().balance = 9;
    assert_eq!(holdings.get("A").unwrap().balance, 9);
    let copy = holdings.clone();
    holdings.get_mut("A").unwrap().balance = 2;
    assert_eq!(copy.get("A").unwrap().balance, 9);
}

#[test]
fn a_client_is_entered_under_its_name_with_its_number() {
    let mut clients = Clients::new();
    clients.insert(4, account(1, 2));
    let c = clients.get("C").unwrap();
    assert_eq!(c.index, 4);
    assert_eq!(c.dollar_balance, 1);
    assert!(clients.get("D").is_none());
    clients.get_mut("C").unwrap().dollar_balance = 77;
    assert_eq!(clients.get("C").unwrap().dollar_balance, 77);
    assert!(clients.get_mut("c").is_none());
    let mut other = account(5, 6);
    other.index = 9;
    clients.insert(5, other);
    assert_eq!(clients.client.len(), 1);
    assert_eq!(clients.get("C").unwrap().dollar_balance, 5);
    assert_eq!(clients.get("C").unwrap().index, 5);
    clients.remove(vec![account(0, 0)]);
    assert!(clients.get("C").is_none());
    assert_eq!(clients.client.len(), 0);
}

#[test]
fn a_ledger_is_read_line_by_line_and_numbered_from_one() {
    let lines = vec![
        "C1\t1000\t130\t240\t760\t320".to_string(),
        "C2 4350 370 120 950 560".to_string(),
    ];
    let clients = Clients::from_lines(&lines).unwrap();
    let c1 = clients.get("C1").unwrap();
    assert_eq!(c1.index, 1);
    assert_eq!(c1.dollar_balance, 1000);
    assert_eq!(c1.asset_balances.get("A").unwrap().balance, 130);
    assert_eq!(c1.asset_balances.get("B").unwrap().balance, 240);
    assert_eq!(c1.asset_balances.get("C").unwrap().balance, 760);
    assert_eq!(c1.asset_balances.get("D").unwrap().balance, 320);
    assert_eq!(c1.asset_balances.get("D").unwrap().symbol, "D");
    assert_eq!(clients.get("C2").unwrap().index, 2);
    assert_eq!(clients.client.len(), 2);
}

#[test]
fn the_first_line_that_cannot_be_read_fails_the_ledger() {
    let lines = vec![
        "C1 1000 130 240 760 320".to_string(),
        "C2 x 370 120 950 560".to_string(),
        "C3".to_string(),
    ];
    assert_eq!(
        Clients::from_lines(&lines).unwrap_err(),
        ClientErrors::ParseDollarBalanceError
    );
    assert_eq!(Clients::from_lines(&vec![]).unwrap().client.len(), 0);
}

#[test]
fn a_stream_is_read_line_by_line_and_numbered_from_one() {
    let lines = vec!["C1 b A 7 12".to_string(), "C2 s B 15 3".to_string()];
    let orders = Orders::from_lines(&lines).unwrap();
    assert_eq!(orders.order.len(), 2);
    let first = orders.get(1).unwrap();
    assert_eq!(first.index, 1);
    assert_eq!(first.client_name, "C1");
    assert_eq!(first.operation, OrderType::Buy);
    let second = orders.get(2).unwrap();
    assert_eq!(second.index, 2);
    assert_eq!(second.operation, OrderType::Sell);
    assert_eq!(second.asset, "B");
    assert_eq!(second.order_price, 15);
    assert_eq!(second.value, 3);
    assert!(orders.get(0).is_none());
    let bad = vec!["C1 b A 7 12".to_string(), "C2 s B".to_string(), "C2 q B 1 1".to_string()];
    assert_eq!(
        Orders::from_lines(&bad).unwrap_err(),
        OrderErrors::ParseInsufficentInputError
    );
}

#[test]
fn a_client_is_written_as_its_line() {
    let c = Client::from_str("C1    1000    130    240    760    320").unwrap();
    assert_eq!(c.line(), "C1\t1000\t130\t240\t760\t320\n");
    let zero = Client::from_str("Z 0 0 4294967295 7 10").unwrap();
    assert_eq!(zero.line(), "Z\t0\t0\t4294967295\t7\t10\n");
    let again = Client::from_str(zero.line().as_str()).unwrap();
    assert_eq!(again.line(), zero.line());
}

#[test]
fn the_lines_of_a_ledger_come_in_the_order_of_the_names() {
    let lines = vec![
        "b 1 2 3 4 5".to_string(),
        "C10 1 0 0 0 0".to_string(),
        "C2 2 0 0 0 0".to_string(),
        "B 3 0 0 0 0".to_string(),
    ];
    let clients = Clients::from_lines(&lines).unwrap();
    assert_eq!(
        clients.lines(),
        vec![
            "B\t3\t0\t0\t0\t0\n",
            "C10\t1\t0\t0\t0\t0\n",
            "C2\t2\t0\t0\t0\t0\n",
            "b\t1\t2\t3\t4\t5\n"
        ]
    );
    let copy = clients.clone();
    assert_eq!(copy.lines(), clients.lines());
}

#[test]
fn an_order_in_a_book_is_changed_in_place() {
    let mut orders = Orders::new();
    assert!(orders.get_mut(3).is_none());
    orders.insert(3, order_of("A", 5, 9));
    assert_eq!(orders.get(3).unwrap().index, 3);
    orders.get_mut(3).unwrap().value = 4;
    assert_eq!(orders.get(3).unwrap().value, 4);
    assert_eq!(orders.get(3).unwrap().order_price, 5);
    assert!(orders.get_mut(1).is_none());
    assert_eq!(orders.order.len(), 1);
}

#[test]
fn updates_give_their_quantities_and_nothing_else() {
    let mut orders = Orders::new();
    orders.insert(1, order_of("A", 5, 9));
    orders.insert(2, order_of("B", 6, 8));
    let mut update = order_of("Z", 100, 3);
    update.index = 2;
    let mut again = order_of("Z", 100, 1);
    again.index = 2;
    orders.update_orders(vec![update, again]);
    let changed = orders.get(2).unwrap();
    assert_eq!(changed.value, 1);
    assert_eq!(changed.asset, "B");
    assert_eq!(changed.order_price, 6);
    assert_eq!(orders.get(1).unwrap().value, 9);
    let mut gone = order_of("A", 5, 9);
    gone.index = 1;
    let mut absent = order_of("A", 5, 9);
    absent.index = 7;
    orders.remove(vec![gone, absent]);
    assert!(orders.get(1).is_none());
    assert_eq!(orders.order.len(), 1);
}

#[test]
fn the_orders_of_a_book_are_listed_by_index() {
    let mut orders = Orders::new();
    orders.insert(5, order_of("A", 1, 1));
    orders.insert(2, order_of("B", 1, 1));
    orders.insert(9, order_of("C", 1, 1));
    let indices: Vec<usize> = orders.listing().iter().map(|o| o.index).collect();
    assert_eq!(indices, vec![2, 5, 9]);
}

#[test]
fn keys_are_ordered_by_their_bytes() {
    assert_eq!(rank("", ""), Rank::Same);
    assert_eq!(rank("", "a"), Rank::Before);
    assert_eq!(rank("a", ""), Rank::After);
    assert_eq!(rank("C10", "C2"), Rank::Before);
    assert_eq!(rank("C2", "C2"), Rank::Same);
    assert_eq!(rank("Z", "a"), Rank::Before);
    assert_eq!(rank("ab", "a"), Rank::After);
    assert_eq!(rank("z", "\u{e9}"), Rank::Before);
    assert_eq!(rank("\u{ffff}", "\u{10000}"), Rank::Before);
}

#[test]
fn a_map_keeps_one_value_for_each_key_in_the_order_of_the_keys() {
    let mut m: StringMap<u32> = StringMap::new();
    assert_eq!(m.len(), 0);
    assert_eq!(m.insert("m".to_string(), 1), None);
    assert_eq!(m.insert("a".to_string(), 2), None);
    assert_eq!(m.insert("z".to_string(), 3), None);
    assert_eq!(m.insert("m".to_string(), 4), Some(1));
    assert_eq!(m.len(), 3);
    assert_eq!(m.key_at(0), "a");
    assert_eq!(m.key_at(1), "m");
    assert_eq!(m.key_at(2), "z");
    assert_eq!(*m.value_at(1), 4);
    assert_eq!(m.get("m"), Some(&4));
    assert_eq!(m.get("n"), None);
    assert!(m.contains_key("z"));
    assert!(!m.contains_key(""));
    *m.get_mut("a").unwrap() = 20;
    assert_eq!(m.get("a"), Some(&20));
    assert_eq!(m.remove("m"), Some(4));
    assert_eq!(m.remove("m"), None);
    assert_eq!(m.len(), 2);
    assert_eq!(m.key_at(1), "z");
    let copy = m.clone();
    assert_eq!(copy.get("z"), Some(&3));
    assert_eq!(copy.len(), 2);
}

#[test]
fn every_failure_has_its_sentence() {
    assert_eq!(ClientErrors::ParseClientIdError.message(), "Unable to parse client id");
    assert_eq!(
        ClientErrors::ParseAssetBalancesError.message(),
        "Unable to parse client asset balance"
    );
    assert_eq!(
        ClientErrors::ParseDollarBalanceError.message(),
        "Unable to parse client dollar balance"
    );
    assert_eq!(
        ClientErrors::ParseInsufficentInput.message(),
        "Can't parse client item: Insufficent input data"
    );
    assert_eq!(GeneralErrors::ReadFileError.message(), "Unable to read file");
    assert_eq!(GeneralErrors::WriteFileError.message(), "Unable to write file");
    assert_eq!(GeneralErrors::GetConfigError.message(), "Unable to get configuration");
    assert_eq!(GeneralErrors::FileCreationError.message(), "Error during file creation");
    assert_eq!(
        GeneralErrors::NotEnaughDollars.message(),
        "Your dollar balance can't be negative"
    );
    assert_eq!(
        GeneralErrors::NotEnaughAsset.message(),
        "Your asset balance can't be negative"
    );
    assert_eq!(GeneralErrors::NoSuchOperationError.message(), "No such operation");
    assert_eq!(
        GeneralErrors::GetClientError.message(),
        "Unable to get a client from the map"
    );
    assert_eq!(
        GeneralErrors::GetOrderError.message(),
        "Unable to get an order from the map"
    );
    assert_eq!(GeneralErrors::GetAssetError.message(), "Unable to get asset from the map");
    assert_eq!(OrderErrors::ParseClientIdError.message(), "Unable to parse client Id");
    assert_eq!(
        OrderErrors::ParseOperationError.message(),
        "Unable to parse operation symbol"
    );
    assert_eq!(OrderErrors::ParseSymbolError.message(), "Unable to parse asset");
    assert_eq!(OrderErrors::ParseItemPriceError.message(), "Unable to parse price");
    assert_eq!(OrderErrors::ParseItemVolumeError.message(), "Unable to parse volume");
    assert_eq!(
        OrderErrors::ParseInsufficentInputError.message(),
        "Can't parse order item: Insufficent input data"
    );
    assert_eq!(
        OrderErrors::NoSuchOperationSymbolError.message(),
        "No such operation symbol"
    );
}

#[test]
fn a_ledger_can_be_written_where_every_client_has_the_four_holdings() {
    let mut clients = Clients::from_lines(&vec!["C1 1 2 3 4 5".to_string()]).unwrap();
    assert!(clients.has_lines());
    assert!(clients.get("C1").unwrap().has_line());
    clients.insert(2, account(1, 2));
    assert!(!clients.get("C").unwrap().has_line());
    assert!(!clients.has_lines());
}

#[test]
fn a_stream_holds_orders_to_buy_or_to_sell_under_their_indices() {
    let mut orders = Orders::new();
    assert!(orders.is_stream());
    orders.insert(1, order_of("A", 1, 1));
    orders.insert(2, order_of("A", 1, 1));
    assert!(orders.is_stream());
    orders.get_mut(2).unwrap().index = 3;
    assert!(!orders.is_stream());
    orders.get_mut(2).unwrap().index = 2;
    assert!(orders.is_stream());
    orders.get_mut(1).unwrap().operation = OrderType::IsNotOrderType;
    assert!(!orders.is_stream());
}

#[test]
fn test_read_file() {
    let lines = vec![
        "C1\t1000\t130\t240\t760\t320".to_string(),
        "C2\t4350\t370\t120\t950\t560".to_string(),
    ];
    let clients = Clients::from_lines(&lines).expect("Failed to read clients from file");
    let client = clients.get("C1").unwrap();
    assert_eq!(client.name, "C1");
    assert_eq!(client.dollar_balance, 1000);
    assert_eq!(client.asset_balances.get("A").unwrap().balance, 130);
    assert_eq!(client.asset_balances.get("B").unwrap().balance, 240);
    assert_eq!(client.asset_balances.get("C").unwrap().balance, 760);
    assert_eq!(client.asset_balances.get("D").unwrap().balance, 320);
}
