use port_inventory::inventory::{build_inventory, inventory_from_output, EnumerationError};
use port_inventory::terminate::{termination_result, TerminationError};

const BANNER: &str = "COMMAND   PID  USER   FD   TYPE   DEVICE SIZE/OFF NODE NAME";

#[test]
fn test_inventory_dedup_keeps_first() {
    // two lines with the same (port, pid) pair: the first parse survives
    let text = format!(
        "{}\n{}\n{}\n",
        BANNER,
        "node 12345 user 23u IPv6 0x12 0t0 TCP *:3000 (LISTEN)",
        "node 12345 user 24u IPv6 0x13 0t0 UDP *:3000 (CLOSED)",
    );
    let recs = inventory_from_output(&text);
    assert_eq!(recs.len(), 1);
    assert_eq!(recs[0].port, 3000);
    assert_eq!(recs[0].pid, 12345);
    assert_eq!(recs[0].protocol, "TCP");
    assert_eq!(recs[0].state, "LISTEN");
}

#[test]
fn test_inventory_sorted_by_port() {
    let text = format!(
        "{}\n{}\n{}\n{}\n",
        BANNER,
        "b 2 user 23u IPv6 0x12 0t0 TCP *:9000 (LISTEN)",
        "a 1 user 23u IPv6 0x12 0t0 TCP *:80 (LISTEN)",
        "c 3 user 23u IPv6 0x12 0t0 TCP *:3000 (LISTEN)",
    );
    let recs = inventory_from_output(&text);
    assert_eq!(recs.len(), 3);
    assert_eq!(recs[0].port, 80);
    assert_eq!(recs[1].port, 3000);
    assert_eq!(recs[2].port, 9000);
}

#[test]
fn test_inventory_sort_is_stable() {
    // equal ports, different pids: first-occurrence order is kept
    let text = format!(
        "{}\n{}\n{}\n{}\n",
        BANNER,
        "x 7 user 23u IPv6 0x12 0t0 TCP *:8080 (LISTEN)",
        "y 5 user 23u IPv6 0x12 0t0 TCP *:8080 (LISTEN)",
        "z 6 user 23u IPv6 0x12 0t0 TCP *:80 (LISTEN)",
    );
    let recs = inventory_from_output(&text);
    assert_eq!(recs.len(), 3);
    assert_eq!(recs[0].pid, 6);
    assert_eq!(recs[1].pid, 7);
    assert_eq!(recs[2].pid, 5);
}

#[test]
fn test_inventory_skips_banner_line() {
    // the first line is discarded even when it would parse
    let text = format!(
        "{}\n{}\n",
        "node 12345 user 23u IPv6 0x12 0t0 TCP *:3000 (LISTEN)",
        "node 12346 user 23u IPv6 0x12 0t0 TCP *:4000 (LISTEN)",
    );
    let recs = inventory_from_output(&text);
    assert_eq!(recs.len(), 1);
    assert_eq!(recs[0].port, 4000);
}

#[test]
fn test_inventory_drops_unparsable_lines() {
    let text = format!("{}\n{}\n{}\n", BANNER, "garbage", "x 1 u 4u IPv4 0x0 0t0 TCP *:22 (LISTEN)");
    let recs = inventory_from_output(&text);
    assert_eq!(recs.len(), 1);
    assert_eq!(recs[0].port, 22);
}

#[test]
fn test_inventory_empty_output() {
    assert!(inventory_from_output("").is_empty());
    assert!(inventory_from_output(BANNER).is_empty());
}

#[test]
fn test_build_inventory_propagates_non_zero_exit() {
    // the enumeration facility failed: its error comes back unchanged
    let err = EnumerationError::NonZeroExit("exit status: 1".to_string());
    let out = build_inventory(Err(err.clone()));
    assert!(matches!(out, Err(e) if e == err));
}

#[test]
fn test_build_inventory_propagates_execution_error() {
    let err = EnumerationError::ExecutionError("No such file or directory".to_string());
    let out = build_inventory(Err(err.clone()));
    assert!(matches!(out, Err(e) if e == err));
}

#[test]
fn test_termination_result_success() {
    let out = termination_result(Ok((true, String::new())));
    assert!(matches!(out, Ok(())));
}

#[test]
fn test_termination_failed_carries_diagnostic() {
    // a protected or non-existent pid: the facility runs and reports
    // failure, and its diagnostic text comes back unchanged
    let diag = "kill: (0): operation not permitted".to_string();
    let out = termination_result(Ok((false, diag.clone())));
    assert!(matches!(out, Err(TerminationError::TerminationFailed(m)) if m == diag));
}

#[test]
fn test_termination_execution_error() {
    let msg = "No such file or directory".to_string();
    let out = termination_result(Err(msg.clone()));
    assert!(matches!(out, Err(TerminationError::ExecutionError(m)) if m == msg));
}

#[test]
fn test_build_inventory_ok() {
    let text = format!("{}\n{}\n", BANNER, "node 12345 user 23u IPv6 0x12 0t0 TCP *:3000 (LISTEN)");
    let out = build_inventory(Ok(text)).unwrap();
    assert_eq!(out.len(), 1);
    assert_eq!(out[0].process_name, "node");
}
