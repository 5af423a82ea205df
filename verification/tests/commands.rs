use miniredis::codec::RespCodec;
use miniredis::dispatch::{process_command, process_command_for_replica, CommandResponse};
use miniredis::model::RespValue;
use miniredis::store::CacheStore;

fn decode_request(bytes: &[u8]) -> Vec<RespValue> {
    match RespCodec::decode(bytes).expect("request must decode") {
        (RespValue::Array(items), _) => items,
        other => panic!("expected an array request, got {:?}", other),
    }
}

fn run_master(
    store: &mut CacheStore,
    bytes: &[u8],
    now: u64,
    replica_count: u64,
) -> CommandResponse {
    let commands = decode_request(bytes);
    process_command(commands, store, now, false, replica_count)
}

fn reply_bytes(r: CommandResponse) -> Vec<u8> {
    match r {
        CommandResponse::Normal(v) => RespCodec::encode(&v),
        CommandResponse::PsyncWithRdb(v) => RespCodec::encode(&v),
    }
}

#[test]
fn scenario_ping() {
    let mut store = CacheStore::new();
    let r = run_master(&mut store, b"*1\r\n$4\r\nPING\r\n", 0, 0);
    assert_eq!(reply_bytes(r), b"+PONG\r\n".to_vec());
}

#[test]
fn scenario_set_then_get() {
    let mut store = CacheStore::new();
    let r1 = run_master(&mut store, b"*3\r\n$3\r\nSET\r\n$3\r\nfoo\r\n$3\r\nbar\r\n", 0, 0);
    assert_eq!(reply_bytes(r1), b"+OK\r\n".to_vec());
    let r2 = run_master(&mut store, b"*2\r\n$3\r\nGET\r\n$3\r\nfoo\r\n", 1, 0);
    assert_eq!(reply_bytes(r2), b"$3\r\nbar\r\n".to_vec());
}

#[test]
fn scenario_ttl_expiry() {
    let mut store = CacheStore::new();
    let r1 = run_master(
        &mut store,
        b"*5\r\n$3\r\nSET\r\n$1\r\nk\r\n$1\r\nv\r\n$2\r\nPX\r\n$2\r\n50\r\n",
        0,
        0,
    );
    assert_eq!(reply_bytes(r1), b"+OK\r\n".to_vec());
    let before = run_master(&mut store, b"*2\r\n$3\r\nGET\r\n$1\r\nk\r\n", 49, 0);
    assert_eq!(reply_bytes(before), b"$1\r\nv\r\n".to_vec());
    let mut store2 = store;
    let after = run_master(&mut store2, b"*2\r\n$3\r\nGET\r\n$1\r\nk\r\n", 100, 0);
    assert_eq!(reply_bytes(after), b"$-1\r\n".to_vec());
}

#[test]
fn scenario_echo() {
    let mut store = CacheStore::new();
    let r = run_master(&mut store, b"*2\r\n$4\r\nECHO\r\n$5\r\nhello\r\n", 0, 0);
    assert_eq!(reply_bytes(r), b"$5\r\nhello\r\n".to_vec());
}

#[test]
fn echo_returns_argument_binary_equal() {
    let mut store = CacheStore::new();
    let arg = RespValue::BinaryBulkString(vec![0, 159, 146, 150]);
    let commands = vec![
        RespValue::BulkString("ECHO".to_string()),
        arg.duplicate(),
    ];
    let r = process_command(commands, &mut store, 0, false, 0);
    assert_eq!(r, CommandResponse::Normal(arg));
}

#[test]
fn set_arity_error() {
    let mut store = CacheStore::new();
    let r = run_master(&mut store, b"*2\r\n$3\r\nSET\r\n$1\r\nk\r\n", 0, 0);
    match r {
        CommandResponse::Normal(RespValue::Error(msg)) => {
            assert!(msg.starts_with("ERR wrong number of arguments"));
            assert_eq!(msg, "ERR wrong number of arguments for 'set' command: expected 3");
        }
        other => panic!("expected an error reply, got {:?}", other),
    }
}

#[test]
fn get_missing_key_is_null() {
    let mut store = CacheStore::new();
    let r = run_master(&mut store, b"*2\r\n$3\r\nGET\r\n$4\r\nnone\r\n", 0, 0);
    assert_eq!(reply_bytes(r), b"$-1\r\n".to_vec());
}

#[test]
fn set_empty_value_reads_as_null() {
    let mut store = CacheStore::new();
    run_master(&mut store, b"*3\r\n$3\r\nSET\r\n$1\r\nk\r\n$0\r\n\r\n", 0, 0);
    let r = run_master(&mut store, b"*2\r\n$3\r\nGET\r\n$1\r\nk\r\n", 0, 0);
    assert_eq!(reply_bytes(r), b"$-1\r\n".to_vec());
}

#[test]
fn set_overwrites() {
    let mut store = CacheStore::new();
    run_master(&mut store, b"*3\r\n$3\r\nSET\r\n$1\r\nk\r\n$1\r\na\r\n", 0, 0);
    run_master(&mut store, b"*3\r\n$3\r\nSET\r\n$1\r\nk\r\n$1\r\nb\r\n", 0, 0);
    let r = run_master(&mut store, b"*2\r\n$3\r\nGET\r\n$1\r\nk\r\n", 0, 0);
    assert_eq!(reply_bytes(r), b"$1\r\nb\r\n".to_vec());
}

#[test]
fn command_names_fold_case_insensitively() {
    let mut store = CacheStore::new();
    let r = run_master(&mut store, b"*3\r\n$3\r\nsEt\r\n$1\r\nk\r\n$1\r\nv\r\n", 0, 0);
    assert_eq!(reply_bytes(r), b"+OK\r\n".to_vec());
    let r2 = run_master(&mut store, b"*2\r\n$3\r\nget\r\n$1\r\nk\r\n", 0, 0);
    assert_eq!(reply_bytes(r2), b"$1\r\nv\r\n".to_vec());
}

#[test]
fn px_token_is_case_insensitive() {
    let mut store = CacheStore::new();
    run_master(
        &mut store,
        b"*5\r\n$3\r\nSET\r\n$1\r\nk\r\n$1\r\nv\r\n$2\r\npx\r\n$2\r\n10\r\n",
        0,
        0,
    );
    let gone = run_master(&mut store, b"*2\r\n$3\r\nGET\r\n$1\r\nk\r\n", 10, 0);
    assert_eq!(reply_bytes(gone), b"$-1\r\n".to_vec());
}

#[test]
fn malformed_px_is_silently_ignored() {
    let mut store = CacheStore::new();
    let r = run_master(
        &mut store,
        b"*5\r\n$3\r\nSET\r\n$1\r\nk\r\n$1\r\nv\r\n$2\r\nPX\r\n$3\r\nabc\r\n",
        0,
        0,
    );
    assert_eq!(reply_bytes(r), b"+OK\r\n".to_vec());
    let r2 = run_master(&mut store, b"*2\r\n$3\r\nGET\r\n$1\r\nk\r\n", u64::MAX, 0);
    assert_eq!(reply_bytes(r2), b"$1\r\nv\r\n".to_vec());
}

#[test]
fn info_master_contains_role_and_replid() {
    let mut store = CacheStore::new();
    let r = run_master(&mut store, b"*1\r\n$4\r\nINFO\r\n", 0, 0);
    match r {
        CommandResponse::Normal(RespValue::BulkString(info)) => {
            assert!(info.contains("role:master"));
            assert!(info.contains("master_replid:"));
            let replid: &str = info
                .split("master_replid:")
                .nth(1)
                .unwrap()
                .split("\r\n")
                .next()
                .unwrap();
            assert_eq!(replid.len(), 40);
            assert!(replid.chars().all(|c| c.is_ascii_hexdigit()));
            assert!(info.contains("master_repl_offset:0"));
        }
        other => panic!("expected a bulk string INFO reply, got {:?}", other),
    }
}

#[test]
fn info_replica_reports_slave_role() {
    let mut store = CacheStore::new();
    let commands = decode_request(b"*1\r\n$4\r\nINFO\r\n");
    let r = process_command(commands, &mut store, 0, true, 0);
    assert_eq!(
        r,
        CommandResponse::Normal(RespValue::BulkString("role:slave".to_string()))
    );
}

#[test]
fn wait_reports_replica_count() {
    let mut store = CacheStore::new();
    let zero = run_master(&mut store, b"*3\r\n$4\r\nWAIT\r\n$1\r\n0\r\n$3\r\n100\r\n", 0, 0);
    assert_eq!(zero, CommandResponse::Normal(RespValue::Integer(0)));
    let one = run_master(&mut store, b"*3\r\n$4\r\nWAIT\r\n$1\r\n0\r\n$3\r\n100\r\n", 0, 1);
    assert_eq!(one, CommandResponse::Normal(RespValue::Integer(1)));
}

#[test]
fn replconf_replies_ok() {
    let mut store = CacheStore::new();
    let r = run_master(
        &mut store,
        b"*3\r\n$8\r\nREPLCONF\r\n$14\r\nlistening-port\r\n$4\r\n6380\r\n",
        0,
        0,
    );
    assert_eq!(reply_bytes(r), b"+OK\r\n".to_vec());
}

#[test]
fn unknown_command_error_names_it() {
    let mut store = CacheStore::new();
    let r = run_master(&mut store, b"*1\r\n$5\r\nhonk!\r\n", 0, 0);
    assert_eq!(
        r,
        CommandResponse::Normal(RespValue::Error("ERR unknown command: HONK!".to_string()))
    );
}

#[test]
fn non_string_command_is_rejected() {
    let mut store = CacheStore::new();
    let commands = vec![RespValue::Integer(7)];
    let r = process_command(commands, &mut store, 0, false, 0);
    assert_eq!(
        r,
        CommandResponse::Normal(RespValue::Error(
            "ERR invalid command: expected string".to_string()
        ))
    );
}

#[test]
fn non_utf8_command_is_rejected() {
    let mut store = CacheStore::new();
    let commands = vec![RespValue::BinaryBulkString(vec![0xff, 0xfe])];
    let r = process_command(commands, &mut store, 0, false, 0);
    assert_eq!(
        r,
        CommandResponse::Normal(RespValue::Error(
            "ERR invalid command: non-UTF8 data".to_string()
        ))
    );
}

#[test]
fn replica_applies_propagated_set() {
    let mut store = CacheStore::new();
    let commands = decode_request(b"*3\r\n$3\r\nSET\r\n$1\r\nx\r\n$1\r\ny\r\n");
    process_command_for_replica(commands, &mut store, 0);
    assert_eq!(store.get("x", 0), Some("y".to_string()));
}

#[test]
fn replica_ignores_non_write_commands() {
    let mut store = CacheStore::new();
    let commands = decode_request(b"*2\r\n$3\r\nGET\r\n$1\r\nx\r\n");
    process_command_for_replica(commands, &mut store, 0);
    assert_eq!(store.get("x", 0), None);
}

#[test]
fn store_set_get_identity() {
    let mut store = CacheStore::new();
    store.set("k".to_string(), "v".to_string(), None, 5);
    assert_eq!(store.get("k", 1_000_000), Some("v".to_string()));
    store.set("k".to_string(), "w".to_string(), Some(50), 100);
    assert_eq!(store.get("k", 149), Some("w".to_string()));
    assert_eq!(store.get("k", 150), None);
}
