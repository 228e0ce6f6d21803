use trade_match::clients::Client;
use trade_match::clients::Clients;
use trade_match::errors::ClientErrors;
use trade_match::errors::OrderErrors;
use trade_match::orders::Order;
use trade_match::orders::OrderType;
use trade_match::orders::Orders;
use trade_match::text::char_is_space;
use trade_match::text::chars_of;
use trade_match::text::field_spans;
use trade_match::text::parse_unsigned;
use trade_match::text::piece;
use trade_match::text::write_unsigned;
use trade_match::DataParser;

fn number(s: &str) -> Option<u32> {
    let chars = chars_of(s);
    parse_unsigned(&chars, 0, chars.len())
}

#[test]
fn a_number_is_digits_with_at_most_one_plus_in_front() {
    assert_eq!(number("0"), Some(0));
    assert_eq!(number("15"), Some(15));
    assert_eq!(number("+15"), Some(15));
    assert_eq!(number("007"), Some(7));
    assert_eq!(number("4294967295"), Some(4294967295));
    assert_eq!(number("000000000004294967295"), Some(4294967295));
    assert_eq!(number("4294967296"), None);
    assert_eq!(number("99999999999999999999999999"), None);
    assert_eq!(number(""), None);
    assert_eq!(number("+"), None);
    assert_eq!(number("++1"), None);
    assert_eq!(number("-1"), None);
    assert_eq!(number("-0"), None);
    assert_eq!(number("1_000"), None);
    assert_eq!(number("12a"), None);
    assert_eq!(number("a"), None);
    assert_eq!(number("1.5"), None);
    assert_eq!(number("\u{0661}"), None);
}

#[test]
fn the_reading_of_numbers_agrees_with_the_standard_one() {
    for s in [
        "0", "1", "+1", "-1", "", "+", "-", "00", "4294967295", "4294967296", "+4294967295",
        "12 ", " 12", "1e3", "0x10", "٣", "42949672950", "+-1", "1+",
    ] {
        assert_eq!(number(s), s.parse::<u32>().ok(), "{:?}", s);
    }
}

#[test]
fn a_number_is_read_from_the_span_that_is_named() {
    let chars = chars_of("ab123cd");
    assert_eq!(parse_unsigned(&chars, 2, 5), Some(123));
    assert_eq!(parse_unsigned(&chars, 2, 6), None);
    assert_eq!(parse_unsigned(&chars, 3, 3), None);
    assert_eq!(parse_unsigned(&chars, 4, 5), Some(3));
}

#[test]
fn numbers_are_written_without_sign_or_leading_zero() {
    assert_eq!(write_unsigned(0), "0");
    assert_eq!(write_unsigned(9), "9");
    assert_eq!(write_unsigned(10), "10");
    assert_eq!(write_unsigned(1234567890), "1234567890");
    assert_eq!(write_unsigned(4294967295), "4294967295");
    for n in [0u32, 1, 99, 100, 101, 65535, 4294967295] {
        assert_eq!(write_unsigned(n), n.to_string());
        assert_eq!(number(write_unsigned(n).as_str()), Some(n));
    }
}

#[test]
fn the_separators_are_the_white_space_of_unicode() {
    for c in ['\t', '\n', '\u{b}', '\u{c}', '\r', ' ', '\u{85}', '\u{a0}', '\u{1680}', '\u{2000}',
        '\u{200a}', '\u{2028}', '\u{2029}', '\u{202f}', '\u{205f}', '\u{3000}']
    {
        assert!(char_is_space(c), "{:?}", c);
    }
    for c in ['a', '0', '\u{8}', '\u{e}', '\u{1f}', '\u{200b}', '\u{feff}', '\u{180e}', '_'] {
        assert!(!char_is_space(c), "{:?}", c);
    }
    let mut code: u32 = 0;
    while code < 0x3100 {
        if let Some(c) = char::from_u32(code) {
            assert_eq!(char_is_space(c), c.is_whitespace(), "{:x}", code);
        }
        code += 1;
    }
}

#[test]
fn fields_are_the_runs_between_separators() {
    let chars = chars_of("  C5 \t b\u{3000}C  15    4 \n");
    assert_eq!(field_spans(&chars), vec![(2, 4), (7, 8), (9, 10), (12, 14), (18, 19)]);
    assert_eq!(field_spans(&chars_of("")), vec![]);
    assert_eq!(field_spans(&chars_of(" \t ")), vec![]);
    assert_eq!(field_spans(&chars_of("x")), vec![(0, 1)]);
    assert_eq!(field_spans(&chars_of("é ü")), vec![(0, 1), (2, 3)]);
}

#[test]
fn the_agreement_of_fields_with_the_standard_splitting() {
    for s in ["", " ", "a", " a", "a ", "a b", "  a\tb\n c  ", "é\u{a0}ü", "a\u{200b}b c"] {
        let chars = chars_of(s);
        let mine: Vec<String> = field_spans(&chars)
            .iter()
            .map(|span| piece(s, span.0, span.1))
            .collect();
        let theirs: Vec<String> = s.split_whitespace().map(|w| w.to_string()).collect();
        assert_eq!(mine, theirs, "{:?}", s);
    }
}

#[test]
fn the_characters_of_a_text_are_counted_one_by_one() {
    assert_eq!(chars_of("aé\u{10000}z"), vec!['a', 'é', '\u{10000}', 'z']);
    assert_eq!(piece("aé\u{10000}z", 1, 3), "é\u{10000}");
    assert_eq!(piece("abc", 1, 1), "");
}

#[test]
fn an_order_record_may_hold_more_than_five_fields() {
    let o = Order::from_str("C1 s D +20 3 and more").unwrap();
    assert_eq!(o.index, 0);
    assert_eq!(o.client_name, "C1");
    assert_eq!(o.operation, OrderType::Sell);
    assert_eq!(o.asset, "D");
    assert_eq!(o.order_price, 20);
    assert_eq!(o.value, 3);
}

#[test]
fn every_failure_of_an_order_record_has_its_input() {
    assert_eq!(Order::from_str("").unwrap_err(), OrderErrors::ParseInsufficentInputError);
    assert_eq!(
        Order::from_str("C5 b C 15").unwrap_err(),
        OrderErrors::ParseInsufficentInputError
    );
    assert_eq!(Order::from_str("C5 bs C 15 4").unwrap_err(), OrderErrors::ParseOperationError);
    assert_eq!(
        Order::from_str("C5 B C 15 4").unwrap_err(),
        OrderErrors::NoSuchOperationSymbolError
    );
    assert_eq!(
        Order::from_str("C5 é C 15 4").unwrap_err(),
        OrderErrors::NoSuchOperationSymbolError
    );
    assert_eq!(
        Order::from_str("C5 b C 4294967296 4").unwrap_err(),
        OrderErrors::ParseItemPriceError
    );
    assert_eq!(Order::from_str("C5 b C 15 -4").unwrap_err(), OrderErrors::ParseItemVolumeError);
    // the side is looked at before the numbers
    assert_eq!(Order::from_str("C5 x C a a").unwrap_err(), OrderErrors::NoSuchOperationSymbolError);
    assert_eq!(Order::from_str("C5 b C a a").unwrap_err(), OrderErrors::ParseItemPriceError);
}

#[test]
fn every_failure_of_a_client_record_has_its_input() {
    assert_eq!(Client::from_str("").unwrap_err(), ClientErrors::ParseInsufficentInput);
    assert_eq!(Client::from_str("C 1 2 3 4").unwrap_err(), ClientErrors::ParseInsufficentInput);
    assert_eq!(
        Client::from_str("C -1 2 3 4 5").unwrap_err(),
        ClientErrors::ParseDollarBalanceError
    );
    assert_eq!(
        Client::from_str("C 1 2 3 4 x").unwrap_err(),
        ClientErrors::ParseAssetBalancesError
    );
    assert_eq!(
        Client::from_str("C 1 2 3 4294967296 5").unwrap_err(),
        ClientErrors::ParseAssetBalancesError
    );
    assert_eq!(
        Client::from_str("C x y 3 4 5").unwrap_err(),
        ClientErrors::ParseDollarBalanceError
    );
    let c = Client::from_str("C 1 2 3 4 5 6 7").unwrap();
    assert_eq!(c.index, 0);
    assert_eq!(c.asset_balances.asset.len(), 4);
}

#[test]
fn the_two_collections_read_their_own_records() {
    let c = Clients::parse("C5 11 4 63 124 33").unwrap();
    assert_eq!(c.name, "C5");
    assert_eq!(Clients::parse("C5").unwrap_err(), ClientErrors::ParseInsufficentInput);
    let o = Orders::parse("C5 b C 15 4").unwrap();
    assert_eq!(o.value, 4);
    assert_eq!(Orders::parse("C5 b").unwrap_err(), OrderErrors::ParseInsufficentInputError);
}

#[test]
fn records_are_parsed_as_texts_are() {
    let o: Order = "C5 s C 15 4".parse().unwrap();
    assert_eq!(o, Order::from_str("C5 s C 15 4").unwrap());
    assert_eq!(o.operation, OrderType::Sell);
    assert_eq!("C5 s".parse::<Order>().unwrap_err(), OrderErrors::ParseInsufficentInputError);
    let c: Client = "C5 11 4 63 124 33".parse().unwrap();
    assert_eq!(c.dollar_balance, 11);
    assert_eq!(c.asset_balances.get("C").unwrap().balance, 124);
    assert_eq!("C5 x 4 63 124 33".parse::<Client>().unwrap_err(), ClientErrors::ParseDollarBalanceError);
}
