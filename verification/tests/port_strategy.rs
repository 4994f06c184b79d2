use rustscan::input::ScanOrder;
use rustscan::port_strategy::PortStrategy;

#[test]
fn serial_strategy_with_ports() {
    let strategy = PortStrategy::pick(Some(vec![80, 443]), ScanOrder::Serial);
    let result = strategy.order();
    assert_eq!(vec![80, 443], result);
}

#[test]
fn random_strategy_with_ports() {
    let strategy = PortStrategy::pick(Some((1..10).collect()), ScanOrder::Random);
    let mut result = strategy.order();
    let expected_range = (1..10).collect::<Vec<u16>>();
    assert_ne!(expected_range, result);

    result.sort_unstable();
    assert_eq!(expected_range, result);
}

#[test]
fn serial_strategy_with_no_ports() {
    let strategy = PortStrategy::pick(None, ScanOrder::Serial);
    let result = strategy.order();
    let expected_range = (1..=65535).collect::<Vec<u16>>();
    assert_eq!(expected_range, result);
}

#[test]
fn random_strategy_with_no_ports() {
    let strategy = PortStrategy::pick(None, ScanOrder::Random);
    let mut result = strategy.order();
    let expected_range = (1..=65535).collect::<Vec<u16>>();
    assert_ne!(expected_range, result);

    result.sort_unstable();
    assert_eq!(expected_range, result);
}

#[test]
fn random_order_keeps_repeated_ports() {
    let ports = vec![5, 5, 7, 7, 7, 1];
    let strategy = PortStrategy::pick(Some(ports.clone()), ScanOrder::Random);
    let mut result = strategy.order();
    result.sort_unstable();
    let mut expected = ports;
    expected.sort_unstable();
    assert_eq!(expected, result);
}

#[test]
fn manual_strategies_keep_an_empty_list_empty() {
    assert!(PortStrategy::pick(Some(vec![]), ScanOrder::Serial).order().is_empty());
    assert!(PortStrategy::pick(Some(vec![]), ScanOrder::Random).order().is_empty());
}
