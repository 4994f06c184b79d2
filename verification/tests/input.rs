use rustscan::input::{
    parse_ports_and_ranges, top_ports, Config, Opts, ScanOrder, ScriptsRequired, TOP_1000_PORTS,
};

fn sample_config() -> Config {
    Config {
        addresses: Some(vec!["127.0.0.1".to_owned()]),
        ports: None,
        greppable: Some(true),
        batch_size: Some(25_000),
        timeout: Some(1_000),
        tries: Some(1),
        ulimit: None,
        command: Some(vec!["-A".to_owned()]),
        accessible: Some(true),
        resolver: None,
        scan_order: Some(ScanOrder::Random),
        scripts: None,
        exclude_ports: None,
        exclude_addresses: None,
        udp: Some(false),
        no_banner: None,
    }
}

#[test]
fn opts_no_merge_when_config_is_ignored() {
    let mut opts = Opts::default();
    let config = sample_config();

    opts.merge(&config);

    assert_eq!(opts.addresses, vec![] as Vec<String>);
    assert!(opts.greppable);
    assert!(!opts.accessible);
    assert_eq!(opts.timeout, 0);
    assert_eq!(opts.command, vec![] as Vec<String>);
    assert_eq!(opts.scan_order, ScanOrder::Serial);
}

#[test]
fn opts_merge_required_arguments() {
    let mut opts = Opts::default();
    let config = sample_config();

    opts.merge_required(&config);

    assert_eq!(opts.addresses, config.addresses.unwrap());
    assert_eq!(opts.greppable, config.greppable.unwrap());
    assert_eq!(opts.timeout, config.timeout.unwrap());
    assert_eq!(opts.command, config.command.unwrap());
    assert_eq!(opts.accessible, config.accessible.unwrap());
    assert_eq!(opts.scan_order, config.scan_order.unwrap());
    assert_eq!(opts.scripts, ScriptsRequired::Default);
}

#[test]
fn opts_merge_optional_arguments() {
    let mut opts = Opts::default();
    let mut config = sample_config();
    config.ports = Some((1..=1000).collect::<Vec<u16>>());
    config.ulimit = Some(1_000);
    config.resolver = Some("1.1.1.1".to_owned());

    opts.merge_optional(&config);

    assert_eq!(opts.ports, Some((1..=1000).collect::<Vec<u16>>()));
    assert_eq!(opts.ulimit, config.ulimit);
    assert_eq!(opts.resolver, config.resolver);
}

#[test]
fn merge_applies_the_config_when_it_is_not_ignored() {
    let mut opts = Opts::default();
    opts.no_config = false;
    let mut config = sample_config();
    config.exclude_ports = Some(vec![22]);
    config.no_banner = Some(true);
    opts.merge(&config);
    assert_eq!(opts.addresses, vec!["127.0.0.1".to_owned()]);
    assert_eq!(opts.batch_size, 25_000);
    assert_eq!(opts.scan_order, ScanOrder::Random);
    assert_eq!(opts.exclude_ports, Some(vec![22]));
    assert!(opts.no_banner);
    // Values the configuration leaves out are kept.
    assert_eq!(opts.scripts, ScriptsRequired::Default);
    assert_eq!(opts.ports, None);
}

#[test]
fn top_ports_win_over_configured_ports() {
    let mut opts = Opts::default();
    opts.top = true;
    let mut config = sample_config();
    config.ports = Some(vec![1, 2, 3]);
    opts.merge_optional(&config);
    assert_eq!(opts.ports, Some(TOP_1000_PORTS.to_vec()));
    assert_eq!(top_ports().len(), 1000);
    assert_eq!(top_ports()[0], 1);
    assert_eq!(top_ports()[999], 65389);
}

#[test]
fn read_fills_in_every_port_when_none_are_given() {
    let opts = Opts::read(Opts::default());
    assert_eq!(opts.ports, Some((1..=65535).collect::<Vec<u16>>()));
    let mut given = Opts::default();
    given.ports = Some(vec![80]);
    assert_eq!(Opts::read(given).ports, Some(vec![80]));
}

#[test]
fn test_parse_ports_and_ranges_single_port() {
    let result = parse_ports_and_ranges("80");
    assert_eq!(result, Ok(vec![80]));
}

#[test]
fn test_parse_ports_and_ranges_multiple_ports() {
    let result = parse_ports_and_ranges("80,443,8080");
    assert_eq!(result, Ok(vec![80, 443, 8080]));
}

#[test]
fn test_parse_ports_and_ranges_single_range() {
    let result = parse_ports_and_ranges("1-5");
    assert_eq!(result, Ok(vec![1, 2, 3, 4, 5]));
}

#[test]
fn test_parse_ports_and_ranges_mixed_ports_and_ranges() {
    let result = parse_ports_and_ranges("80,443,1-3,8080");
    assert_eq!(result, Ok(vec![1, 2, 3, 80, 443, 8080]));
}

#[test]
fn test_parse_ports_and_ranges_with_spaces() {
    let result = parse_ports_and_ranges("80, 443, 1-3, 8080");
    assert_eq!(result, Ok(vec![1, 2, 3, 80, 443, 8080]));
}

#[test]
fn test_parse_ports_and_ranges_duplicates() {
    let result = parse_ports_and_ranges("80,443,80,443");
    assert_eq!(result, Ok(vec![80, 443]));
}

#[test]
fn test_parse_ports_and_ranges_empty_input() {
    let result = parse_ports_and_ranges("");
    assert!(result.is_err());
    assert!(result
        .unwrap_err()
        .contains("No valid ports or ranges provided"));
}

#[test]
fn test_parse_ports_and_ranges_invalid_port() {
    let result = parse_ports_and_ranges("80,abc,443");
    assert!(result.is_err());
    assert!(result.unwrap_err().contains("Invalid port number 'abc'"));
}

#[test]
fn test_parse_ports_and_ranges_invalid_range() {
    let result = parse_ports_and_ranges("80,1-abc,443");
    assert!(result.is_err());
    assert!(result
        .unwrap_err()
        .contains("Invalid end port 'abc' in range '1-abc'"));
}

#[test]
fn test_parse_ports_and_ranges_invalid_range_format() {
    let result = parse_ports_and_ranges("80,1-2-3,443");
    assert!(result.is_err());
    assert!(result
        .unwrap_err()
        .contains("Invalid range format '1-2-3'. Expected 'start-end'"));
}

#[test]
fn test_parse_ports_and_ranges_reverse_range() {
    let result = parse_ports_and_ranges("80,5-1,443");
    assert!(result.is_err());
    assert!(result
        .unwrap_err()
        .contains("Start port 5 is greater than end port 1 in range '5-1'"));
}

#[test]
fn test_parse_ports_and_ranges_out_of_bounds_port() {
    let result = parse_ports_and_ranges("80,70000,443");
    assert!(result.is_err());
    let error_msg = result.unwrap_err();
    println!("Actual error message: {}", error_msg);
    assert!(error_msg.contains("Invalid port number '70000'"));
}

#[test]
fn test_parse_ports_and_ranges_out_of_bounds_range() {
    let result = parse_ports_and_ranges("80,1-70000,443");
    assert!(result.is_err());
    let error_msg = result.unwrap_err();
    println!("Actual error message: {}", error_msg);
    assert!(error_msg.contains("Invalid end port '70000' in range '1-70000'"));
}

#[test]
fn test_parse_ports_and_ranges_zero_port() {
    let result = parse_ports_and_ranges("80,0,443");
    assert!(result.is_err());
    assert!(result
        .unwrap_err()
        .contains("Port 0 must be between 1 and 65535"));
}

#[test]
fn test_parse_ports_and_ranges_complex_mixed() {
    let result = parse_ports_and_ranges("1,80,443,1-5,8080,9090,10-12");
    assert_eq!(
        result,
        Ok(vec![1, 2, 3, 4, 5, 10, 11, 12, 80, 443, 8080, 9090])
    );
}

#[test]
fn full_error_messages_of_port_lists() {
    assert_eq!(
        parse_ports_and_ranges("1-2-3"),
        Err("Invalid range format '1-2-3'. Expected 'start-end'. Example: 1-1000.".to_owned())
    );
    assert_eq!(
        parse_ports_and_ranges("x-3"),
        Err("Invalid start port 'x' in range 'x-3'".to_owned())
    );
    assert_eq!(
        parse_ports_and_ranges("0-3"),
        Err("Ports in range '0-3' must be between 1 and 65535".to_owned())
    );
    assert_eq!(
        parse_ports_and_ranges("65535-1"),
        Err("Start port 65535 is greater than end port 1 in range '65535-1'".to_owned())
    );
    assert_eq!(
        parse_ports_and_ranges(" , ,"),
        Err("No valid ports or ranges provided".to_owned())
    );
}

#[test]
fn port_lists_accept_signs_zeros_and_unicode_spaces() {
    assert_eq!(parse_ports_and_ranges("+80,\u{3000}0443\u{a0},,"), Ok(vec![80, 443]));
    assert_eq!(parse_ports_and_ranges("65535-65535"), Ok(vec![65535]));
    assert_eq!(parse_ports_and_ranges("1-65535").unwrap().len(), 65535);
}

#[test]
fn printing_a_port_list_and_parsing_it_again_gives_the_same_list() {
    for input in ["80", "1,80,443,1-5,8080,9090,10-12", "65535, 1-3", "+7,0009"] {
        let ports = parse_ports_and_ranges(input).unwrap();
        let printed = ports.iter().map(|p| p.to_string()).collect::<Vec<_>>().join(",");
        assert_eq!(parse_ports_and_ranges(&printed), Ok(ports));
    }
}
