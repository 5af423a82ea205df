use miniredis::config::{parse_port, split_host_port};
use miniredis::dispatch::{is_write_command, parse_px};
use miniredis::model::RespValue;

fn bulk(s: &str) -> RespValue {
    RespValue::BulkString(s.to_string())
}

#[test]
fn parse_port_reads_decimal_ports() {
    assert_eq!(parse_port("6379"), Some(6379));
    assert_eq!(parse_port("0"), Some(0));
    assert_eq!(parse_port("65535"), Some(65535));
    assert_eq!(parse_port("65536"), None);
    assert_eq!(parse_port(""), None);
    assert_eq!(parse_port("12a"), None);
    assert_eq!(parse_port("-1"), None);
}

#[test]
fn split_host_port_reads_replicaof_argument() {
    assert_eq!(
        split_host_port("localhost 6379"),
        Some(("localhost".to_string(), 6379))
    );
    assert_eq!(
        split_host_port("127.0.0.1 6380"),
        Some(("127.0.0.1".to_string(), 6380))
    );
    assert_eq!(split_host_port("localhost"), None);
    assert_eq!(split_host_port(" 6379"), None);
    assert_eq!(split_host_port("host notaport"), None);
}

#[test]
fn write_commands_are_recognized() {
    for name in ["SET", "DEL", "INCR", "DECR", "LPUSH", "RPUSH", "LPOP", "RPOP", "set", "Set"] {
        let cmds = vec![bulk(name), bulk("k")];
        assert!(is_write_command(&cmds), "{} should be a write command", name);
    }
    for name in ["GET", "PING", "ECHO", "INFO", "WAIT", "PSYNC", "REPLCONF"] {
        let cmds = vec![bulk(name)];
        assert!(!is_write_command(&cmds), "{} should not be a write command", name);
    }
    assert!(!is_write_command(&[]));
    assert!(!is_write_command(&[RespValue::Integer(1)]));
}

#[test]
fn parse_px_reads_token_and_count() {
    assert_eq!(parse_px(&[bulk("PX"), bulk("50")]), Some(50));
    assert_eq!(parse_px(&[bulk("px"), bulk("50")]), Some(50));
    assert_eq!(parse_px(&[bulk("PX"), RespValue::Integer(75)]), Some(75));
    assert_eq!(
        parse_px(&[bulk("PX"), RespValue::BinaryBulkString(b"123".to_vec())]),
        Some(123)
    );
    assert_eq!(parse_px(&[bulk("EX"), bulk("50")]), None);
    assert_eq!(parse_px(&[bulk("PX"), bulk("abc")]), None);
    assert_eq!(parse_px(&[bulk("PX")]), None);
    assert_eq!(parse_px(&[]), None);
    assert_eq!(parse_px(&[RespValue::Integer(1), bulk("50")]), None);
}
