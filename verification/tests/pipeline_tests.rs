use rebalancer::dec::Dec;
use rebalancer::extract::parse_csv;
use rebalancer::orders::{calculate_orders, Config};
use rebalancer::render::render_orders;

#[test]
fn pipeline_from_export_to_orders_table() {
    let csv_content = r#"As of Date,2025-05-24 14:39:25
Account,BANK NAME - ACCOUNT NUMBER
Cash,1000.00
Investments,9000.00
Total Value,10000.00
,
Symbol,Market,Description,Quantity,Average Cost,Price,Book Cost,Market Value,Unrealized $,Unrealized %,% of Positions,Loan Value,Change Today $,Change Today %,Bid,Bid Lots,Ask,Ask Lots,Volume,Day Low,Day High,52-wk Low,52-wk High
ABC123,,FUND1,100.0,50.0,60.0,5000.0,6000.0,1000.0,20.0,60.0,,,,,,,,,,,,
ABC456,,FUND2,50.0,60.0,60.0,3000.0,3000.0,0.0,0.0,30.0,,,,,,,,,,,,
"#;
    let config = Config {
        funds: vec![
            ("ABC123".to_string(), Dec::from_int(50)),
            ("ABC456".to_string(), Dec::from_int(30)),
            ("ABC789".to_string(), Dec::from_int(20)),
        ],
    };

    let (cash, holdings) = parse_csv(csv_content);
    assert_eq!(cash, Dec::from_int(1000));
    assert_eq!(holdings.len(), 2);

    // Total portfolio: 10000
    // Target ABC123: 5000 (current: 6000) -> SELL 1000
    // Target ABC456: 3000 (current: 3000) -> no change
    // Target ABC789: 2000 (current: 0) -> BUY 2000
    let orders = calculate_orders(&config, cash, &holdings).unwrap();
    let table = render_orders(&orders);
    let lines: Vec<&str> = table.lines().collect();

    assert_eq!(lines[0], "Symbol,Action,Amount");
    assert_eq!(lines.len(), 3);
    assert!(lines[1..].contains(&"ABC123,SELL,1000.00"));
    assert!(lines[1..].contains(&"ABC789,BUY,2000.00"));
}

#[test]
fn pipeline_all_in_one_fund() {
    let csv_content = "Cash,0.00\n\
        Symbol,Market,Description,Quantity,Average Cost,Price,Book Cost,Market Value,Unrealized $,Unrealized %,% of Positions\n\
        XYZ111,,FUND_X,100.0,100.0,100.0,10000.0,10000.0,0.0,0.0,100.0\n";
    let config = Config {
        funds: vec![
            ("XYZ111".to_string(), Dec::from_int(80)),
            ("XYZ222".to_string(), Dec::from_int(20)),
        ],
    };

    let (cash, holdings) = parse_csv(csv_content);
    assert_eq!(cash, Dec::zero());
    assert_eq!(holdings.len(), 1);

    // Total: 10000
    // Target XYZ111: 8000 (current: 10000) -> SELL 2000
    // Target XYZ222: 2000 (current: 0) -> BUY 2000
    let orders = calculate_orders(&config, cash, &holdings).unwrap();
    let table = render_orders(&orders);
    let lines: Vec<&str> = table.lines().collect();

    assert_eq!(lines[0], "Symbol,Action,Amount");
    assert!(lines[1..].contains(&"XYZ111,SELL,2000.00"));
    assert!(lines[1..].contains(&"XYZ222,BUY,2000.00"));
}
