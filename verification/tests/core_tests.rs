use ipcow::config::{CoreConfig, LogLevel};
use ipcow::fuzzing::Fuzzer;
use ipcow::handlers::{connection_response, discovery_entry};
use ipcow::discovery::Discoveries;
use ipcow::state::{CoreState, Endpoint};
use ipcow::types::{listener_addresses, octets_of, AddrType, ConnectionState, NetworkError};
use ipcow::web_server::WebServer;

#[test]
fn standard_config() {
    let c = CoreConfig::standard();
    assert_eq!(c.max_workers, 4);
    assert_eq!(c.web_port, 3030);
    assert_eq!(c.log_level, LogLevel::Info);
}

#[test]
fn web_server_port() {
    assert_eq!(WebServer::new().port(), 3030);
}

#[test]
fn fuzzer_templates_and_switch() {
    let mut f = Fuzzer::new();
    assert!(!f.is_active());
    assert_eq!(f.template("http"), None);
    f.add_template("http", b"GET / HTTP/1.1\r\n\r\n".to_vec());
    f.add_template("dns", vec![0, 1, 2]);
    assert_eq!(f.template("http"), Some(&b"GET / HTTP/1.1\r\n\r\n".to_vec()));
    f.add_template("http", vec![9]);
    assert_eq!(f.template("http"), Some(&vec![9]));
    assert_eq!(f.template("dns"), Some(&vec![0, 1, 2]));
    f.start();
    assert!(f.is_active());
    f.stop();
    assert!(!f.is_active());
    assert_eq!(f.template("dns"), Some(&vec![0, 1, 2]));
}

#[test]
fn octets_of_address() {
    assert_eq!(octets_of(0xC0A8_0101), (192, 168, 1, 1));
    assert_eq!(octets_of(0), (0, 0, 0, 0));
}

#[test]
fn listener_plan_is_the_product() {
    let ips = vec![0x7F00_0001u32, 0x0A00_0001];
    let ports = vec![80u16, 443, 8080];
    let plan = listener_addresses(&ips, &ports);
    assert_eq!(plan.len(), 6);
    let pairs: Vec<((u8, u8, u8, u8), u16)> = plan.iter().map(|a| (a.address, a.port)).collect();
    assert_eq!(
        pairs,
        vec![
            ((127, 0, 0, 1), 80),
            ((127, 0, 0, 1), 443),
            ((127, 0, 0, 1), 8080),
            ((10, 0, 0, 1), 80),
            ((10, 0, 0, 1), 443),
            ((10, 0, 0, 1), 8080),
        ]
    );
    assert!(plan.iter().all(|a| a.info == AddrType::IPv4 && a.socket_type == AddrType::TCP));
}

#[test]
fn listener_plan_empty_ports() {
    assert!(listener_addresses(&vec![1, 2], &vec![]).is_empty());
}

#[test]
fn core_state_tracks_connections() {
    let mut s = CoreState::new();
    assert!(!s.is_running());
    assert_eq!(s.network_config().max_connections, 1000);
    assert_eq!(s.network_config().timeout, std::time::Duration::from_secs(30));
    assert_eq!(s.network_config().retry_attempts, 3);
    assert!(s.get_active_connections().is_empty());
    let a = Endpoint::V4 { ip: 0x7F00_0001, port: 8080 };
    let b = Endpoint::V4 { ip: 0x7F00_0001, port: 8081 };
    s.update_connection(a, ConnectionState::Connected);
    s.update_connection(b, ConnectionState::Error("reset".to_string()));
    s.update_connection(a, ConnectionState::Disconnected);
    let mut all = s.get_active_connections();
    all.sort_by_key(|(e, _)| match e {
        Endpoint::V4 { port, .. } => *port,
        Endpoint::V6 { port, .. } => *port,
    });
    assert_eq!(all.len(), 2);
    assert_eq!(all[0].0, a);
    assert!(matches!(all[0].1, ConnectionState::Disconnected));
    assert_eq!(all[1].0, b);
    assert!(matches!(&all[1].1, ConnectionState::Error(m) if m == "reset"));
    s.set_running(true);
    assert!(s.is_running());
}

#[test]
fn core_state_keeps_ipv6_peers_apart() {
    let mut s = CoreState::new();
    let v6 = Endpoint::V6 { ip: 1, port: 443, flowinfo: 0, scope_id: 0 };
    let v6_scoped = Endpoint::V6 { ip: 1, port: 443, flowinfo: 0, scope_id: 2 };
    let v4 = Endpoint::V4 { ip: 1, port: 443 };
    s.update_connection(v6, ConnectionState::Connected);
    s.update_connection(v6_scoped, ConnectionState::Disconnected);
    s.update_connection(v4, ConnectionState::Connected);
    s.update_connection(v6, ConnectionState::Error("gone".to_string()));
    let all = s.get_active_connections();
    assert_eq!(all.len(), 3);
    let of = |e: Endpoint| all.iter().find(|(k, _)| *k == e).map(|(_, v)| v.clone());
    assert!(matches!(of(v6), Some(ConnectionState::Error(m)) if m == "gone"));
    assert!(matches!(of(v6_scoped), Some(ConnectionState::Disconnected)));
    assert!(matches!(of(v4), Some(ConnectionState::Connected)));
}

#[test]
fn network_error_messages() {
    assert_eq!(NetworkError::ConnectionFailed("refused".to_string()).message(), "Connection failed: refused");
    assert_eq!(NetworkError::InvalidAddress.message(), "Invalid address");
    assert_eq!(NetworkError::InvalidPort.message(), "Invalid port");
    assert_eq!(NetworkError::Timeout.message(), "Operation timed out");
    let io = std::io::Error::new(std::io::ErrorKind::Other, "disk on fire");
    assert_eq!(NetworkError::IoError(io).message(), "IO error: disk on fire");
}

#[test]
fn io_error_converts() {
    let io = std::io::Error::new(std::io::ErrorKind::TimedOut, "slow link");
    let e = NetworkError::from(io);
    assert!(matches!(e, NetworkError::IoError(_)));
    assert_eq!(e.message(), "IO error: slow link");
}

#[test]
fn response_page() {
    assert_eq!(
        connection_response(8080, "2025-01-06 12:00:00"),
        "HTTP/1.1 200 OK\r\nContent-Type: text/html\r\n\r\n<html><body><h1>Port 8080</h1><p>Active since: 2025-01-06 12:00:00</p></body></html>"
    );
    assert!(connection_response(0, "t").contains("<h1>Port 0</h1>"));
}

#[test]
fn discovery_log_entry() {
    let e = discovery_entry("2025-01-06 12:00:00", "127.0.0.1", 22, "  SSH-2.0-OpenSSH\r\n");
    assert_eq!(
        e,
        format!("[2025-01-06 12:00:00] 127.0.0.1:22\n{}\nSSH-2.0-OpenSSH\n", "-".repeat(50))
    );
    let f = discovery_entry("t", "::1", 65535, "\u{3000}x y\u{a0}");
    assert_eq!(f, format!("[t] ::1:65535\n{}\nx y\n", "-".repeat(50)));
}

#[test]
fn discoveries_keep_the_latest_answer() {
    let mut d = Discoveries::new();
    let a = Endpoint::V4 { ip: 0x0A00_0001, port: 80 };
    let b = Endpoint::V6 { ip: 1, port: 80, flowinfo: 0, scope_id: 0 };
    assert!(d.service(a).is_none());
    d.record_service(a, "HTTP/1.1 200 OK");
    d.record_service(b, "SSH-2.0");
    d.record_service(a, "HTTP/1.1 404 Not Found");
    assert_eq!(d.service(a).map(|s| s.as_str()), Some("HTTP/1.1 404 Not Found"));
    assert_eq!(d.service(b).map(|s| s.as_str()), Some("SSH-2.0"));
    assert!(d.service(Endpoint::V4 { ip: 0x0A00_0001, port: 81 }).is_none());
}
