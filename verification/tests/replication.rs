use miniredis::codec::RespCodec;
use miniredis::dispatch::{process_command, CommandResponse};
use miniredis::model::RespValue;
use miniredis::replication::{
    empty_rdb, parse_snapshot_header, Handshake, HandshakeStep, ReplicaSession,
};
use miniredis::store::CacheStore;

fn simple(s: &str) -> RespValue {
    RespValue::SimpleString(s.to_string())
}

fn decode_request(bytes: &[u8]) -> Vec<RespValue> {
    match RespCodec::decode(bytes).expect("request must decode") {
        (RespValue::Array(items), _) => items,
        other => panic!("expected an array request, got {:?}", other),
    }
}

#[test]
fn handshake_walks_the_four_steps() {
    let mut hs = Handshake::new(6380);
    assert_eq!(hs.step(), HandshakeStep::Ping);
    assert_eq!(hs.request().unwrap(), b"*1\r\n$4\r\nPING\r\n".to_vec());
    assert!(hs.on_response(&simple("PONG")));

    assert_eq!(hs.step(), HandshakeStep::ListeningPort);
    assert_eq!(
        hs.request().unwrap(),
        b"*3\r\n$8\r\nREPLCONF\r\n$14\r\nlistening-port\r\n$4\r\n6380\r\n".to_vec()
    );
    assert!(hs.on_response(&simple("OK")));

    assert_eq!(hs.step(), HandshakeStep::Capa);
    assert_eq!(
        hs.request().unwrap(),
        b"*3\r\n$8\r\nREPLCONF\r\n$4\r\ncapa\r\n$6\r\npsync2\r\n".to_vec()
    );
    assert!(hs.on_response(&simple("OK")));

    assert_eq!(hs.step(), HandshakeStep::Psync);
    assert_eq!(
        hs.request().unwrap(),
        b"*3\r\n$5\r\nPSYNC\r\n$1\r\n?\r\n$2\r\n-1\r\n".to_vec()
    );
    assert!(hs.on_response(&simple(
        "FULLRESYNC 8371b4fb1155b71f4a04d3e1bc3e18c4a990aeeb 0"
    )));
    assert_eq!(hs.step(), HandshakeStep::Done);
    assert!(hs.request().is_none());
}

#[test]
fn handshake_rejects_wrong_responses() {
    let mut hs = Handshake::new(6380);
    assert!(!hs.on_response(&simple("NOPE")));
    assert_eq!(hs.step(), HandshakeStep::Ping);
    assert!(!hs.on_response(&RespValue::Integer(1)));
    assert!(hs.on_response(&simple("PONG")));
    assert!(!hs.on_response(&simple("PONG")));
    assert_eq!(hs.step(), HandshakeStep::ListeningPort);
}

#[test]
fn psync_reply_then_snapshot_framing() {
    let mut store = CacheStore::new();
    let commands = decode_request(b"*3\r\n$5\r\nPSYNC\r\n$1\r\n?\r\n$2\r\n-1\r\n");
    let r = process_command(commands, &mut store, 0, false, 0);
    match r {
        CommandResponse::PsyncWithRdb(v) => {
            let reply = RespCodec::encode(&v);
            assert_eq!(
                reply,
                b"+FULLRESYNC 8371b4fb1155b71f4a04d3e1bc3e18c4a990aeeb 0\r\n".to_vec()
            );
            let blob = empty_rdb();
            assert_eq!(blob.len(), 88);
            assert_eq!(&blob[0..9], b"REDIS0011");
            let header = format!("${}\r\n", blob.len());
            assert_eq!(header.as_bytes(), b"$88\r\n");
        }
        other => panic!("expected a handover reply, got {:?}", other),
    }
}

#[test]
fn master_answers_the_whole_handshake() {
    let mut store = CacheStore::new();
    let mut replies: Vec<Vec<u8>> = Vec::new();
    for request in [
        b"*1\r\n$4\r\nPING\r\n".to_vec(),
        b"*3\r\n$8\r\nREPLCONF\r\n$14\r\nlistening-port\r\n$4\r\n6380\r\n".to_vec(),
        b"*3\r\n$8\r\nREPLCONF\r\n$4\r\ncapa\r\n$6\r\npsync2\r\n".to_vec(),
        b"*3\r\n$5\r\nPSYNC\r\n$1\r\n?\r\n$2\r\n-1\r\n".to_vec(),
    ] {
        let commands = decode_request(&request);
        let reply = match process_command(commands, &mut store, 0, false, 0) {
            CommandResponse::Normal(v) => RespCodec::encode(&v),
            CommandResponse::PsyncWithRdb(v) => RespCodec::encode(&v),
        };
        replies.push(reply);
    }
    assert_eq!(replies[0], b"+PONG\r\n".to_vec());
    assert_eq!(replies[1], b"+OK\r\n".to_vec());
    assert_eq!(replies[2], b"+OK\r\n".to_vec());
    assert_eq!(
        replies[3],
        b"+FULLRESYNC 8371b4fb1155b71f4a04d3e1bc3e18c4a990aeeb 0\r\n".to_vec()
    );
}

#[test]
fn snapshot_header_parses() {
    assert_eq!(parse_snapshot_header(b"$88"), Some(88));
    assert_eq!(parse_snapshot_header(b"$0"), Some(0));
    assert_eq!(parse_snapshot_header(b"88"), None);
    assert_eq!(parse_snapshot_header(b"$"), None);
    assert_eq!(parse_snapshot_header(b"$8a"), None);
}

#[test]
fn propagated_set_reaches_replica_store() {
    let request = b"*3\r\n$3\r\nSET\r\n$1\r\nx\r\n$1\r\ny\r\n";
    let mut session = ReplicaSession::new();
    let mut store = CacheStore::new();
    let reply = session.apply(decode_request(request), &mut store, 0);
    assert!(reply.is_none());
    assert_eq!(session.offset, request.len() as u64);
    assert_eq!(store.get("x", 0), Some("y".to_string()));
}

#[test]
fn fanout_payload_is_byte_identical_to_request() {
    let request = b"*3\r\n$3\r\nSET\r\n$1\r\nx\r\n$1\r\ny\r\n";
    let (decoded, used) = RespCodec::decode(request).unwrap();
    assert_eq!(used, request.len());
    let reencoded = RespCodec::encode(&decoded);
    assert_eq!(reencoded, request.to_vec());
}

#[test]
fn getack_reports_offset_before_itself() {
    let mut session = ReplicaSession::new();
    let mut store = CacheStore::new();

    let set1 = b"*3\r\n$3\r\nSET\r\n$3\r\nfoo\r\n$3\r\nbar\r\n";
    session.apply(decode_request(set1), &mut store, 0);
    let set2 = b"*3\r\n$3\r\nSET\r\n$1\r\nk\r\n$1\r\nv\r\n";
    session.apply(decode_request(set2), &mut store, 0);
    let total = (set1.len() + set2.len()) as u64;
    assert_eq!(session.offset, total);

    let getack = b"*3\r\n$8\r\nREPLCONF\r\n$6\r\nGETACK\r\n$1\r\n*\r\n";
    let reply = session
        .apply(decode_request(getack), &mut store, 0)
        .expect("a GETACK must be answered");
    let expected = format!(
        "*3\r\n$8\r\nREPLCONF\r\n$3\r\nACK\r\n${}\r\n{}\r\n",
        total.to_string().len(),
        total
    );
    assert_eq!(reply, expected.as_bytes().to_vec());
    assert_eq!(session.offset, total + getack.len() as u64);
}

#[test]
fn ping_advances_offset_silently() {
    let mut session = ReplicaSession::new();
    let mut store = CacheStore::new();
    let ping = b"*1\r\n$4\r\nPING\r\n";
    let reply = session.apply(decode_request(ping), &mut store, 0);
    assert!(reply.is_none());
    assert_eq!(session.offset, ping.len() as u64);
}
