use trade_match::clients::Client;
use trade_match::errors::ClientErrors;
use trade_match::errors::OrderErrors;
use trade_match::orders::Order;
use trade_match::orders::OrderType;

#[test]
fn clients_test_from_str() {
    let base_string = "C5    11    4    63    124    33";
    let struct_exemplar = Client::from_str(base_string).unwrap();
    let a_balance = struct_exemplar.asset_balances.get("A").unwrap();
    let b_balance = struct_exemplar.asset_balances.get("B").unwrap();
    let c_balance = struct_exemplar.asset_balances.get("C").unwrap();
    let d_balance = struct_exemplar.asset_balances.get("D").unwrap();
    assert_eq!(struct_exemplar.name, "C5");
    assert_eq!(struct_exemplar.dollar_balance, 11);
    assert_eq!(a_balance.balance, 4);
    assert_eq!(b_balance.balance, 63);
    assert_eq!(c_balance.balance, 124);
    assert_eq!(d_balance.balance, 33);
}

#[test]
fn clients_test_parse_insufficent_error_from_str() {
    let base_string = "24    11    4    63    124    ";
    let actual_error = Client::from_str(base_string).unwrap_err();
    let expected_error = ClientErrors::ParseInsufficentInput;
    assert_eq!(actual_error, expected_error);
}

#[test]
fn test_parse_client_dollar_balance_error_from_str() {
    let base_string = "24    B    4    63    124    33";
    let actual_error = Client::from_str(base_string).unwrap_err();
    let expected_error = ClientErrors::ParseDollarBalanceError;
    assert_eq!(actual_error, expected_error)
}

#[test]
fn test_parse_client_asset_error_from_str() {
    let base_string = "24    11    B    63    124    33";
    let actual_error = Client::from_str(base_string).unwrap_err();
    let expected_error = ClientErrors::ParseAssetBalancesError;
    assert_eq!(actual_error, expected_error)
}

#[test]
fn orders_test_from_str() {
    let base_string = "C5    b    C    15    4";
    let struct_exemplar = Order::from_str(base_string).unwrap();

    assert_eq!(struct_exemplar.client_name, "C5");
    assert_eq!(struct_exemplar.operation, OrderType::Buy);
    assert_eq!(struct_exemplar.asset, "C");
    assert_eq!(struct_exemplar.order_price, 15);
    assert_eq!(struct_exemplar.value, 4);
}

#[test]
fn orders_test_parse_insufficent_error_from_str() {
    let base_string = "C5    b    C    15    ";
    let actual_error = Order::from_str(base_string).unwrap_err();
    let expected_error = OrderErrors::ParseInsufficentInputError;
    assert_eq!(actual_error, expected_error);
}

#[test]
fn test_parse_operation_error() {
    let base_string = "C5    24    C    15    4";
    let actual_error = Order::from_str(base_string).unwrap_err();
    let expected_error = OrderErrors::ParseOperationError;
    assert_eq!(actual_error, expected_error);
}

#[test]
fn test_no_such_operation_error() {
    let base_string = "C5    c    C    15    4";
    let actual_error = Order::from_str(base_string).unwrap_err();
    let expected_error = OrderErrors::NoSuchOperationSymbolError;
    assert_eq!(actual_error, expected_error);
}

#[test]
fn test_item_price_error() {
    let base_string = "C5    b    C    a    4";
    let actual_error = Order::from_str(base_string).unwrap_err();
    let expected_error = OrderErrors::ParseItemPriceError;
    assert_eq!(actual_error, expected_error);
}

#[test]
fn test_item_volume_error() {
    let base_string = "C5    b    C    15    a";
    let actual_error = Order::from_str(base_string).unwrap_err();
    let expected_error = OrderErrors::ParseItemVolumeError;
    assert_eq!(actual_error, expected_error);
}
