use port_inventory::parse::parse_lsof_line;

#[test]
fn test_parse_lsof_line() {
    // Test parsing a typical lsof line
    let line = "node      12345    user   23u  IPv6 0x1234567890abcdef      0t0  TCP *:3000 (LISTEN)";
    let result = parse_lsof_line(line);

    assert!(result.is_some());
    let port = result.unwrap();
    assert_eq!(port.process_name, "node");
    assert_eq!(port.pid, 12345);
    assert_eq!(port.port, 3000);
    assert_eq!(port.protocol, "TCP");
    assert_eq!(port.state, "LISTEN");
}

#[test]
fn test_parse_lsof_line_invalid() {
    // Test with invalid line (too few fields)
    let line = "invalid line";
    let result = parse_lsof_line(line);
    assert!(result.is_none());
}

#[test]
fn test_parse_lsof_line_no_port() {
    // Test with line that doesn't have a port
    let line = "node      12345    user   23u  IPv6 0x1234567890abcdef      0t0  TCP";
    let result = parse_lsof_line(line);
    assert!(result.is_none());
}

#[test]
fn test_parse_lsof_line_address_without_colon() {
    // ten tokens, but the address token carries no colon at all
    let line = "node 12345 user 23u IPv6 0x12 0t0 TCP localhost (LISTEN)";
    assert!(parse_lsof_line(line).is_none());
}

#[test]
fn test_parse_lsof_line_non_numeric_port() {
    // the final colon-delimited segment is not a number
    let line = "node 12345 user 23u IPv6 0x12 0t0 TCP *:http (LISTEN)";
    assert!(parse_lsof_line(line).is_none());
}

#[test]
fn test_parse_lsof_line_non_numeric_pid() {
    let line = "node abc user 23u IPv6 0x12 0t0 TCP *:3000 (LISTEN)";
    assert!(parse_lsof_line(line).is_none());
}

#[test]
fn test_parse_lsof_line_state_unknown() {
    // a tenth token without a parenthesis leaves the state as UNKNOWN
    let line = "postgres 500 user 7u IPv4 0x99 0t0 UDP 127.0.0.1:5432 extra";
    let port = parse_lsof_line(line).unwrap();
    assert_eq!(port.state, "UNKNOWN");
    assert_eq!(port.protocol, "UDP");
    assert_eq!(port.address, "127.0.0.1");
    assert_eq!(port.port, 5432);
}

#[test]
fn test_parse_lsof_line_ipv6_address() {
    // multi-colon address: the first segment becomes the address, the
    // last one the port
    let line = "node 12345 user 23u IPv6 0x12 0t0 TCP fe80::1:8080 (LISTEN)";
    let port = parse_lsof_line(line).unwrap();
    assert_eq!(port.address, "fe80");
    assert_eq!(port.port, 8080);
}

#[test]
fn test_parse_lsof_line_exactly_ten_tokens() {
    let line = "a 1 u 4u IPv4 0x0 0t0 TCP 1.2.3.4:80 (ESTABLISHED)";
    let port = parse_lsof_line(line).unwrap();
    assert_eq!(port.process_name, "a");
    assert_eq!(port.pid, 1);
    assert_eq!(port.port, 80);
    assert_eq!(port.state, "ESTABLISHED");
    assert_eq!(port.address, "1.2.3.4");
}

#[test]
fn test_parse_lsof_line_port_overflow() {
    // a port that does not fit in 32 bits is rejected
    let line = "node 12345 user 23u IPv6 0x12 0t0 TCP *:99999999999 (LISTEN)";
    assert!(parse_lsof_line(line).is_none());
}
