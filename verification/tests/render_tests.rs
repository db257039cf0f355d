use rebalancer::dec::Dec;
use rebalancer::orders::Order;
use rebalancer::render::render_orders;

fn order(fund: &str, action: &str, amount: &str) -> Order {
    Order {
        fund: fund.to_string(),
        action: action.to_string(),
        amount: Dec::parse(amount).unwrap(),
    }
}

#[test]
fn test_write_orders() {
    let orders = vec![order("ABC123", "BUY", "1500.50"), order("ABC456", "SELL", "750.25")];

    let content = render_orders(&orders);
    let lines: Vec<&str> = content.lines().collect();

    assert_eq!(lines.len(), 3); // header + 2 orders
    assert_eq!(lines[0], "Symbol,Action,Amount");
    assert_eq!(lines[1], "ABC123,BUY,1500.50");
    assert_eq!(lines[2], "ABC456,SELL,750.25");
}

#[test]
fn empty_orders_render_header_only() {
    let content = render_orders(&vec![]);
    assert_eq!(content, "Symbol,Action,Amount\n");
}

#[test]
fn amounts_always_carry_two_fraction_digits() {
    let orders = vec![order("ABC123", "SELL", "1000"), order("ABC456", "BUY", "2000.5")];
    let content = render_orders(&orders);
    let lines: Vec<&str> = content.lines().collect();
    assert_eq!(lines[1], "ABC123,SELL,1000.00");
    assert_eq!(lines[2], "ABC456,BUY,2000.50");
}

#[test]
fn amounts_are_rounded_to_cents() {
    let orders = vec![order("ABC123", "BUY", "10.005"), order("ABC456", "BUY", "10.004")];
    let content = render_orders(&orders);
    let lines: Vec<&str> = content.lines().collect();
    assert_eq!(lines[1], "ABC123,BUY,10.01");
    assert_eq!(lines[2], "ABC456,BUY,10.00");
}

#[test]
fn symbols_with_delimiters_are_quoted() {
    let orders = vec![order("A,B", "BUY", "1.00"), order("C\"D", "SELL", "2.00")];
    let content = render_orders(&orders);
    let lines: Vec<&str> = content.lines().collect();
    assert_eq!(lines[1], "\"A,B\",BUY,1.00");
    assert_eq!(lines[2], "\"C\"\"D\",SELL,2.00");
}
