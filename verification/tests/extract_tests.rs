use rebalancer::dec::Dec;
use rebalancer::extract::canonical_pairs;
use rebalancer::extract::parse_csv;
use rebalancer::extract::parse_pairs;

#[test]
fn test_parse_csv() {
    let csv_content = r#"As of Date,2025-05-24 14:39:25
Account,BANK NAME - ACCOUNT NUMBER
Cash,5600.43
Investments,59361.28
Total Value,64961.71
,
Symbol,Market,Description,Quantity,Average Cost,Price,Book Cost,Market Value,Unrealized $,Unrealized %,% of Positions,Loan Value,Change Today $,Change Today %,Bid,Bid Lots,Ask,Ask Lots,Volume,Day Low,Day High,52-wk Low,52-wk High
ABC123,,FUND1,123.456,31.789,56.43,3924.54,6966.62,3042.08,77.51,10.72,,,,,,,,,,,,
ABC456,,FUND2,1234.678,34.232,15.343,42265.50,18943.66,-23321.83,-55.18,29.16,,,,,,,,,,,,
ABC789,,FUND3,1031.324,13.456,32.435,13877.50,33450.99,19573.50,141.04,51.49,,,,,,,,,,,,
"#;

    let (cash, holdings) = parse_csv(csv_content);

    assert_eq!(cash, Dec::parse("5600.43").unwrap());
    assert_eq!(holdings.len(), 3);
    assert_eq!(holdings[0].symbol, "ABC123");
    assert_eq!(holdings[0].market_value, Dec::parse("6966.62").unwrap());
    assert_eq!(holdings[1].symbol, "ABC456");
    assert_eq!(holdings[1].market_value, Dec::parse("18943.66").unwrap());
    assert_eq!(holdings[2].symbol, "ABC789");
    assert_eq!(holdings[2].market_value, Dec::parse("33450.99").unwrap());
}

#[test]
fn no_header_yields_no_holdings() {
    // Scenario: no line matches the header predicate, but a cash line
    // exists; extraction still sets cash and yields zero holdings.
    let text = "Account,SOMEWHERE\nCash,123.45\nABC123,,F,1,2,3,4,5,6,7,8,9,10,11\n";
    let (cash, holdings) = parse_csv(text);
    assert_eq!(cash, Dec::parse("123.45").unwrap());
    assert_eq!(holdings.len(), 0);
}

#[test]
fn cash_line_after_header_still_honored() {
    let text = "Symbol,A,B,C,D,E,F,G,H,I,Market Value\n\
                ABC123,,,,,,,,,,100.00\n\
                Cash,77.50\n\
                ABC456,,,,,,,,,,200.00\n";
    let (cash, holdings) = parse_csv(text);
    assert_eq!(cash, Dec::parse("77.50").unwrap());
    assert_eq!(holdings.len(), 2);
    assert_eq!(holdings[0].symbol, "ABC123");
    assert_eq!(holdings[1].symbol, "ABC456");
}

#[test]
fn column_order_swapped_same_holdings() {
    // The Market Value column sits at position 10 in one export and at
    // position 1 in the other; the data columns are exchanged the same
    // way.  Extraction reads by column name, so the holdings agree.
    let text1 = "Symbol,Market,B,C,D,E,F,G,H,I,Market Value\n\
                 ABC123,xx,,,,,,,,,6966.62\n\
                 ABC456,yy,,,,,,,,,18943.66\n";
    let text2 = "Symbol,Market Value,B,C,D,E,F,G,H,I,Market\n\
                 ABC123,6966.62,,,,,,,,,xx\n\
                 ABC456,18943.66,,,,,,,,,yy\n";
    let (cash1, holdings1) = parse_csv(text1);
    let (cash2, holdings2) = parse_csv(text2);
    assert_eq!(cash1, cash2);
    assert_eq!(holdings1.len(), 2);
    assert_eq!(holdings2.len(), 2);
    for (h1, h2) in holdings1.iter().zip(holdings2.iter()) {
        assert_eq!(h1.symbol, h2.symbol);
        assert_eq!(h1.market_value, h2.market_value);
    }
}

#[test]
fn malformed_row_is_skipped_not_fatal() {
    // The middle row has a non-numeric market value; the rows around
    // it are still extracted.
    let text = "Symbol,A,B,C,D,E,F,G,H,I,Market Value\n\
                ABC123,,,,,,,,,,100.00\n\
                BAD999,,,,,,,,,,not-a-number\n\
                ABC456,,,,,,,,,,200.00\n";
    let (_, holdings) = parse_csv(text);
    assert_eq!(holdings.len(), 2);
    assert_eq!(holdings[0].symbol, "ABC123");
    assert_eq!(holdings[0].market_value, Dec::parse("100.00").unwrap());
    assert_eq!(holdings[1].symbol, "ABC456");
    assert_eq!(holdings[1].market_value, Dec::parse("200.00").unwrap());
}

#[test]
fn short_rows_and_blank_lines_skipped() {
    let text = "Symbol,A,B,C,D,E,F,G,H,I,Market Value\n\
                \n\
                too,short\n\
                ABC123,,,,,,,,,,42.00\n";
    let (_, holdings) = parse_csv(text);
    assert_eq!(holdings.len(), 1);
    assert_eq!(holdings[0].market_value, Dec::parse("42.00").unwrap());
}

#[test]
fn empty_symbol_or_value_skipped() {
    let text = "Symbol,A,B,C,D,E,F,G,H,I,Market Value\n\
                ,,,,,,,,,,100.00\n\
                ABC123,,,,,,,,,,\n\
                ABC456,,,,,,,,,,7.00\n";
    let (_, holdings) = parse_csv(text);
    assert_eq!(holdings.len(), 1);
    assert_eq!(holdings[0].symbol, "ABC456");
}

#[test]
fn canonical_roundtrip_recovers_holdings() {
    // Extraction is idempotent: re-parsing the canonical
    // re-serialization yields the same holdings.
    let text = "Cash,5600.43\n\
                Symbol,A,B,C,D,E,F,G,H,I,Market Value\n\
                ABC123,,,,,,,,,,6966.62\n\
                ABC456,,,,,,,,,,-18943.66\n\
                ABC789,,,,,,,,,,0.01\n";
    let (_, holdings) = parse_csv(text);
    assert_eq!(holdings.len(), 3);
    let listing = canonical_pairs(&holdings);
    let again = parse_pairs(&listing);
    assert_eq!(again.len(), holdings.len());
    for (h1, h2) in holdings.iter().zip(again.iter()) {
        assert_eq!(h1.symbol, h2.symbol);
        assert_eq!(h1.market_value, h2.market_value);
    }
}
