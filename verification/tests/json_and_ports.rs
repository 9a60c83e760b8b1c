use port_inventory::dev_ports::{filter_dev_ports, is_dev_port};
use port_inventory::json::{port_from_json, port_to_json};
use port_inventory::record::Port;

fn sample_port() -> Port {
    Port {
        port: 3000,
        process_name: "node".to_string(),
        pid: 12345,
        protocol: "TCP".to_string(),
        state: "LISTEN".to_string(),
        address: "127.0.0.1".to_string(),
    }
}

#[test]
fn test_port_struct_serialization() {
    let port = sample_port();

    // Test serialization
    let json = port_to_json(&port);
    assert!(json.contains("\"port\":3000"));
    assert!(json.contains("\"processName\":\"node\""));
    assert!(json.contains("\"pid\":12345"));

    // Test deserialization
    let deserialized: Port = port_from_json(&json).unwrap();
    assert_eq!(deserialized.port, port.port);
    assert_eq!(deserialized.process_name, port.process_name);
    assert_eq!(deserialized.pid, port.pid);
}

#[test]
fn test_json_round_trip_with_escapes() {
    let port = Port {
        port: 65535,
        process_name: "we\"ird\\name".to_string(),
        pid: 0,
        protocol: "UDP".to_string(),
        state: "UNKNOWN".to_string(),
        address: "".to_string(),
    };
    let json = port_to_json(&port);
    let back = port_from_json(&json).unwrap();
    assert_eq!(back.port, port.port);
    assert_eq!(back.process_name, port.process_name);
    assert_eq!(back.pid, port.pid);
    assert_eq!(back.protocol, port.protocol);
    assert_eq!(back.state, port.state);
    assert_eq!(back.address, port.address);
}

#[test]
fn test_json_output_is_valid_json() {
    // cross-check the renderer against a general-purpose JSON reader
    let json = port_to_json(&sample_port());
    let value: serde_json::Value = serde_json::from_str(&json).unwrap();
    assert_eq!(value["port"], serde_json::Value::from(3000u32));
    assert_eq!(value["processName"], serde_json::Value::from("node"));
    assert_eq!(value["pid"], serde_json::Value::from(12345u32));
    assert_eq!(value["protocol"], serde_json::Value::from("TCP"));
    assert_eq!(value["state"], serde_json::Value::from("LISTEN"));
    assert_eq!(value["address"], serde_json::Value::from("127.0.0.1"));
}

#[test]
fn test_json_rejects_other_shapes() {
    assert!(port_from_json("").is_none());
    assert!(port_from_json("{}").is_none());
    assert!(port_from_json("{\"port\":3000}").is_none());
    let json = port_to_json(&sample_port());
    let trailing = format!("{} ", json);
    assert!(port_from_json(&trailing).is_none());
}

#[test]
fn test_is_dev_port() {
    // Test development port ranges
    assert!(is_dev_port(3000));
    assert!(is_dev_port(3005));
    assert!(is_dev_port(5173));
    assert!(is_dev_port(8080));
    assert!(is_dev_port(5432));
    assert!(is_dev_port(27017));
    assert!(is_dev_port(1420));

    // Test non-development ports
    assert!(!is_dev_port(22)); // SSH
    assert!(!is_dev_port(443)); // HTTPS
    assert!(!is_dev_port(80)); // HTTP
    assert!(!is_dev_port(12000)); // Random high port
    assert!(!is_dev_port(2999)); // Just below range
    assert!(!is_dev_port(3011)); // Just above range
}

#[test]
fn test_filter_dev_ports() {
    let mk = |port: u32, pid: u32| Port {
        port,
        process_name: "p".to_string(),
        pid,
        protocol: "TCP".to_string(),
        state: "LISTEN".to_string(),
        address: "*".to_string(),
    };
    let ports = vec![mk(22, 1), mk(3000, 2), mk(443, 3), mk(5432, 4)];
    let devs = filter_dev_ports(ports);
    assert_eq!(devs.len(), 2);
    assert_eq!(devs[0].port, 3000);
    assert_eq!(devs[1].port, 5432);
}

#[test]
fn test_dev_port_ranges_boundaries() {
    // Test range boundaries
    assert!(is_dev_port(3000)); // Start of range
    assert!(is_dev_port(3010)); // End of range
    assert!(!is_dev_port(2999)); // Just before
    assert!(!is_dev_port(3011)); // Just after

    // Test single port ranges
    assert!(is_dev_port(5173)); // Vite
    assert!(!is_dev_port(5172));
    assert!(!is_dev_port(5174));
}
