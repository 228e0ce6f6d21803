use trade_match::clients::Asset;
use trade_match::clients::Assets;
use trade_match::clients::Client;
use trade_match::clients::Clients;
use trade_match::matching::buy_assets;
use trade_match::matching::sell_assets;
use trade_match::orders::Order;
use trade_match::orders::OrderType;
use trade_match::orders::Orders;
use trade_match::DataParser;

#[test]
fn test_buy() {
    let mut buyer_asset = Assets::new();
    let client1_asset = Asset {
        symbol: "A".to_string(),
        balance: 25,
    };
    buyer_asset
        .asset
        .insert(client1_asset.symbol.clone(), client1_asset);

    let mut seller_asset = Assets::new();
    let client2_asset = Asset {
        symbol: "A".to_string(),
        balance: 25,
    };
    seller_asset
        .asset
        .insert(client2_asset.symbol.clone(), client2_asset);

    let mut clients = Clients::new();
    let buy_client = Client {
        index: 0,
        name: "C2".to_string(),
        dollar_balance: 1000,
        asset_balances: buyer_asset,
    };

    let sell_client = Client {
        index: 0,
        name: "C3".to_string(),
        dollar_balance: 1000,
        asset_balances: seller_asset,
    };
    clients.insert(1, buy_client);
    clients.insert(2, sell_client);

    let mut orders: Orders = Orders::new();

    let sell_order_1 = Order {
        index: 0,
        client_name: "C2".to_string(),
        operation: OrderType::Sell,
        asset: "A".to_string(),
        order_price: 8,
        value: 4,
    };

    let mut buy_order_1 = Order {
        index: 2,
        client_name: "C3".to_string(),
        operation: OrderType::Buy,
        asset: "A".to_string(),
        order_price: 10,
        value: 6,
    };

    orders.insert(sell_order_1.index, sell_order_1);

    buy_assets(&orders, &mut clients, &mut buy_order_1);

    assert_eq!(clients.get("C2").unwrap().dollar_balance, 1032);
    assert_eq!(
        clients
            .get("C2")
            .unwrap()
            .asset_balances
            .get("A")
            .unwrap()
            .balance,
        21
    );
    assert_eq!(clients.get("C3").unwrap().dollar_balance, 968);
    assert_eq!(
        clients
            .get("C3")
            .unwrap()
            .asset_balances
            .get("A")
            .unwrap()
            .balance,
        29
    );
}

#[test]
fn test_sell() {
    let mut buyer_asset = Assets::new();
    let client1_asset = Asset {
        symbol: "A".to_string(),
        balance: 25,
    };
    buyer_asset
        .asset
        .insert(client1_asset.symbol.clone(), client1_asset);

    let mut seller_asset = Assets::new();
    let client2_asset = Asset {
        symbol: "A".to_string(),
        balance: 25,
    };
    seller_asset
        .asset
        .insert(client2_asset.symbol.clone(), client2_asset);

    let mut clients = Clients::new();
    let buy_client = Client {
        index: 0,
        name: "C2".to_string(),
        dollar_balance: 1000,
        asset_balances: buyer_asset,
    };

    let sell_client = Client {
        index: 0,
        name: "C3".to_string(),
        dollar_balance: 1000,
        asset_balances: seller_asset,
    };
    clients.insert(1, buy_client);
    clients.insert(2, sell_client);

    let mut orders: Orders = Orders::new();

    let mut sell_order_1 = Order {
        index: 0,
        client_name: "C2".to_string(),
        operation: OrderType::Sell,
        asset: "A".to_string(),
        order_price: 8,
        value: 4,
    };

    let buy_order_1 = Order {
        index: 2,
        client_name: "C3".to_string(),
        operation: OrderType::Buy,
        asset: "A".to_string(),
        order_price: 10,
        value: 6,
    };

    orders.insert(buy_order_1.index, buy_order_1);

    sell_assets(&orders, &mut clients, &mut sell_order_1);

    assert_eq!(clients.get("C2").unwrap().dollar_balance, 1040);
    assert_eq!(
        clients
            .get("C2")
            .unwrap()
            .asset_balances
            .get("A")
            .unwrap()
            .balance,
        21
    );
    assert_eq!(clients.get("C3").unwrap().dollar_balance, 960);
    assert_eq!(
        clients
            .get("C3")
            .unwrap()
            .asset_balances
            .get("A")
            .unwrap()
            .balance,
        29
    );
}
