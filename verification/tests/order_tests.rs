use rebalancer::dec::Dec;
use rebalancer::extract::Holding;
use rebalancer::orders::calculate_orders;
use rebalancer::orders::CalcError;
use rebalancer::orders::Config;

fn holding(symbol: &str, value: Dec) -> Holding {
    Holding { symbol: symbol.to_string(), market_value: value }
}

#[test]
fn test_calculate_orders() {
    let config = Config {
        funds: vec![
            ("ABC123".to_string(), Dec::from_int(60)),
            ("ABC456".to_string(), Dec::from_int(30)),
            ("ABC789".to_string(), Dec::from_int(10)),
        ],
    };
    let holdings = vec![
        holding("ABC123", Dec::from_int(6000)),
        holding("ABC456", Dec::from_int(2000)),
        holding("ABC789", Dec::from_int(1000)),
    ];
    let cash = Dec::from_int(1000);

    let orders = calculate_orders(&config, cash, &holdings).unwrap();

    // Total value: 6000 + 2000 + 1000 + 1000 = 10000
    // Target ABC123: 10000 * 0.6 = 6000 (current: 6000, diff: 0)
    // Target ABC456: 10000 * 0.3 = 3000 (current: 2000, diff: +1000)
    // Target ABC789: 10000 * 0.1 = 1000 (current: 1000, diff: 0)
    assert_eq!(orders.len(), 1);
    assert_eq!(orders[0].fund, "ABC456");
    assert_eq!(orders[0].action, "BUY");
    assert_eq!(orders[0].amount, Dec::from_int(1000));
}

#[test]
fn test_calculate_orders_with_sells() {
    let config = Config {
        funds: vec![
            ("ABC123".to_string(), Dec::from_int(30)),
            ("ABC456".to_string(), Dec::from_int(30)),
            ("ABC789".to_string(), Dec::from_int(40)),
        ],
    };
    let holdings = vec![
        holding("ABC123", Dec::from_int(6000)),
        holding("ABC456", Dec::from_int(2000)),
        holding("ABC789", Dec::from_int(1000)),
    ];
    let cash = Dec::from_int(1000);

    let orders = calculate_orders(&config, cash, &holdings).unwrap();

    // Total value: 10000
    // Target ABC123: 10000 * 0.3 = 3000 (current: 6000, diff: -3000)
    // Target ABC456: 10000 * 0.3 = 3000 (current: 2000, diff: +1000)
    // Target ABC789: 10000 * 0.4 = 4000 (current: 1000, diff: +3000)
    assert_eq!(orders.len(), 3);

    let abc123_order = orders.iter().find(|o| o.fund == "ABC123").unwrap();
    assert_eq!(abc123_order.action, "SELL");
    assert_eq!(abc123_order.amount, Dec::from_int(3000));

    let abc456_order = orders.iter().find(|o| o.fund == "ABC456").unwrap();
    assert_eq!(abc456_order.action, "BUY");
    assert_eq!(abc456_order.amount, Dec::from_int(1000));

    let abc789_order = orders.iter().find(|o| o.fund == "ABC789").unwrap();
    assert_eq!(abc789_order.action, "BUY");
    assert_eq!(abc789_order.amount, Dec::from_int(3000));
}

#[test]
fn test_calculate_orders_ignores_small_differences() {
    let config = Config { funds: vec![("ABC123".to_string(), Dec::from_int(60))] };

    let holdings = vec![holding("ABC123", Dec::parse("6000.50").unwrap())];
    let cash = Dec::zero();

    let orders = calculate_orders(&config, cash, &holdings).unwrap();
    // Total value: 6000.50
    // Target ABC123: 6000.50 * 0.6 = 3600.30 (current: 6000.50, diff: -2400.20)
    // Should create an order since the difference exceeds $1.
    assert_eq!(orders.len(), 1);

    let holdings_small_diff = vec![holding("ABC123", Dec::parse("5999.50").unwrap())];
    let cash_small = Dec::parse("0.50").unwrap();

    let orders_small = calculate_orders(&config, cash_small, &holdings_small_diff).unwrap();
    // Total: 6000, Target: 3600, Current: 5999.50, diff: -2399.50 > $1
    assert_eq!(orders_small.len(), 1);

    let holdings_tiny_diff = vec![holding("ABC123", Dec::parse("5999.99").unwrap())];
    let cash_tiny = Dec::parse("0.01").unwrap();

    let orders_tiny = calculate_orders(&config, cash_tiny, &holdings_tiny_diff).unwrap();
    // Total: 6000, Target: 3600, Current: 5999.99, diff: -2399.99 > $1
    assert_eq!(orders_tiny.len(), 1);
}

#[test]
fn threshold_boundary_one_dollar() {
    // total = 100000.00, target 1% = 1000.00, current = 999.00:
    // delta is exactly 1.00 and must NOT produce an order.
    let config = Config { funds: vec![("ABC123".to_string(), Dec::from_int(1))] };
    let holdings = vec![holding("ABC123", Dec::parse("999.00").unwrap())];
    let cash = Dec::parse("99001.00").unwrap();
    let orders = calculate_orders(&config, cash, &holdings).unwrap();
    assert_eq!(orders.len(), 0);

    // current = 998.99: delta is 1.01 and must produce BUY 1.01.
    let holdings2 = vec![holding("ABC123", Dec::parse("998.99").unwrap())];
    let cash2 = Dec::parse("99001.01").unwrap();
    let orders2 = calculate_orders(&config, cash2, &holdings2).unwrap();
    assert_eq!(orders2.len(), 1);
    assert_eq!(orders2[0].action, "BUY");
    assert_eq!(orders2[0].amount, Dec::parse("1.01").unwrap());
}

#[test]
fn end_to_end_scenario_a() {
    // cash 1000.00, holdings (ABC123, 6000.00) and (ABC456, 2000.00),
    // targets 60/30/10: total 9000.00, so SELL 600 ABC123, BUY 700
    // ABC456, BUY 900 ABC789.
    let config = Config {
        funds: vec![
            ("ABC123".to_string(), Dec::from_int(60)),
            ("ABC456".to_string(), Dec::from_int(30)),
            ("ABC789".to_string(), Dec::from_int(10)),
        ],
    };
    let holdings = vec![
        holding("ABC123", Dec::from_int(6000)),
        holding("ABC456", Dec::from_int(2000)),
    ];
    let cash = Dec::from_int(1000);
    let orders = calculate_orders(&config, cash, &holdings).unwrap();
    assert_eq!(orders.len(), 3);
    assert_eq!(orders[0].fund, "ABC123");
    assert_eq!(orders[0].action, "SELL");
    assert_eq!(orders[0].amount, Dec::from_int(600));
    assert_eq!(orders[1].fund, "ABC456");
    assert_eq!(orders[1].action, "BUY");
    assert_eq!(orders[1].amount, Dec::from_int(700));
    assert_eq!(orders[2].fund, "ABC789");
    assert_eq!(orders[2].action, "BUY");
    assert_eq!(orders[2].amount, Dec::from_int(900));
}

#[test]
fn directionality_amount_is_absolute() {
    let config = Config {
        funds: vec![
            ("UP111".to_string(), Dec::from_int(50)),
            ("DN222".to_string(), Dec::from_int(0)),
        ],
    };
    let holdings = vec![holding("DN222", Dec::from_int(100))];
    let cash = Dec::from_int(100);
    // total 200: target UP111 = 100 (current 0, delta +100 -> BUY 100),
    // target DN222 = 0 (current 100, delta -100 -> SELL 100).
    let orders = calculate_orders(&config, cash, &holdings).unwrap();
    assert_eq!(orders.len(), 2);
    assert_eq!(orders[0].fund, "UP111");
    assert_eq!(orders[0].action, "BUY");
    assert_eq!(orders[0].amount, Dec::from_int(100));
    assert_eq!(orders[1].fund, "DN222");
    assert_eq!(orders[1].action, "SELL");
    assert_eq!(orders[1].amount, Dec::from_int(100));
}

#[test]
fn duplicate_holding_first_match_wins() {
    let config = Config { funds: vec![("ABC123".to_string(), Dec::from_int(50))] };
    let holdings = vec![
        holding("ABC123", Dec::from_int(100)),
        holding("ABC123", Dec::from_int(900)),
    ];
    let cash = Dec::from_int(900);
    // total = 100 + 900 + 900 = 1900; target = 950; current = first
    // match = 100; delta = +850.
    let orders = calculate_orders(&config, cash, &holdings).unwrap();
    assert_eq!(orders.len(), 1);
    assert_eq!(orders[0].action, "BUY");
    assert_eq!(orders[0].amount, Dec::from_int(850));
}

#[test]
fn fund_absent_from_targets_gets_no_order() {
    let config = Config { funds: vec![("ABC123".to_string(), Dec::from_int(100))] };
    let holdings = vec![
        holding("ABC123", Dec::from_int(400)),
        holding("ZZZ999", Dec::from_int(600)),
    ];
    let cash = Dec::zero();
    // Only listed funds are evaluated: ZZZ999 never appears.
    let orders = calculate_orders(&config, cash, &holdings).unwrap();
    assert_eq!(orders.len(), 1);
    assert_eq!(orders[0].fund, "ABC123");
    assert_eq!(orders[0].action, "BUY");
    assert_eq!(orders[0].amount, Dec::from_int(600));
}

#[test]
fn percent_out_of_range_is_an_error() {
    let config = Config { funds: vec![("ABC123".to_string(), Dec::from_int(150))] };
    let r = calculate_orders(&config, Dec::zero(), &vec![]);
    assert_eq!(r.unwrap_err(), CalcError::PercentOutOfRange);

    let config2 = Config { funds: vec![("ABC123".to_string(), Dec::from_int(-1))] };
    let r2 = calculate_orders(&config2, Dec::zero(), &vec![]);
    assert_eq!(r2.unwrap_err(), CalcError::PercentOutOfRange);
}

#[test]
fn amounts_beyond_capacity_are_an_error() {
    let config = Config { funds: vec![("ABC123".to_string(), Dec::from_int(50))] };
    let too_big = Dec { units: 2_000_000_000_000_000_000_000_000_000 };
    let r = calculate_orders(&config, too_big, &vec![]);
    assert_eq!(r.unwrap_err(), CalcError::Overflow);

    let r2 = calculate_orders(&config, Dec::zero(), &vec![holding("ABC123", too_big)]);
    assert_eq!(r2.unwrap_err(), CalcError::Overflow);
}
