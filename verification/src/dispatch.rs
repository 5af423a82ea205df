//! The command dispatcher: from a decoded request array to a reply, and for
//! a write, to the store's next state.
use vstd::prelude::*;
use vstd::utf8::{decode_utf8, encode_utf8, is_ascii_chars, valid_utf8};

use crate::model::{models_of, RespModel, RespValue};
use crate::store::{spec_expiry, CacheStore, StoreModel};
use crate::text::{
    all_digits, ascii_upper, bytes_eq, copy_bytes, digits_val, lemma_upper_bytes_valid_utf8,
    parse_u64, upper_bytes, vec_to_string,
};

verus! {

/// What the connection does with a reply: send it and go on reading, or —
/// after PSYNC — send it, send the snapshot blob, and hand the connection
/// over to the replica registry.
#[derive(Debug, PartialEq, Eq)]
pub enum CommandResponse {
    Normal(RespValue),
    PsyncWithRdb(RespValue),
}

/// The ghost shape of a `CommandResponse`.
#[verifier::ext_equal]
pub enum ResponseModel {
    Normal(RespModel),
    PsyncWithRdb(RespModel),
}

impl View for CommandResponse {
    type V = ResponseModel;

    open spec fn view(&self) -> ResponseModel {
        match self {
            CommandResponse::Normal(v) => ResponseModel::Normal(v@),
            CommandResponse::PsyncWithRdb(v) => ResponseModel::PsyncWithRdb(v@),
        }
    }
}

/// True of the three string-shaped RESP forms.
pub open spec fn is_stringish(m: RespModel) -> bool {
    m is SimpleString || m is BulkString || m is BinaryBulkString
}

/// The bytes a string-shaped value carries: the UTF-8 bytes of its text,
/// or the payload of a binary bulk string.
pub open spec fn text_bytes_of(m: RespModel) -> Seq<u8> {
    match m {
        RespModel::SimpleString(s) => encode_utf8(s),
        RespModel::BulkString(s) => encode_utf8(s),
        RespModel::BinaryBulkString(b) => b,
        _ => Seq::empty(),
    }
}

/// The characters a string-shaped value spells, when its bytes are valid
/// UTF-8.
pub open spec fn text_chars_of(m: RespModel) -> Seq<char> {
    decode_utf8(text_bytes_of(m))
}

/// True when a string-shaped value spells valid UTF-8 text.
pub open spec fn text_ok(m: RespModel) -> bool {
    is_stringish(m) && valid_utf8(text_bytes_of(m))
}

/// The case-folded name under which the first element selects a command.
pub open spec fn command_of(cmds: Seq<RespModel>) -> Seq<u8> {
    upper_bytes(text_bytes_of(cmds[0]))
}

/// The millisecond time-to-live that trailing SET arguments ask for: a
/// case-insensitive `PX` token followed by a decimal count, which may
/// arrive as an integer or as a string-shaped value. Anything else yields
/// no time-to-live.
pub open spec fn spec_parse_px(args: Seq<RespModel>) -> Option<u64> {
    if args.len() < 2 {
        None
    } else if !(is_stringish(args[0]) && upper_bytes(text_bytes_of(args[0])) == encode_utf8(
        "PX"@,
    )) {
        None
    } else {
        match args[1] {
            RespModel::Integer(i) => Some(i),
            m => {
                if is_stringish(m) && text_bytes_of(m).len() > 0 && all_digits(text_bytes_of(m))
                    && digits_val(text_bytes_of(m)) <= u64::MAX {
                    Some(digits_val(text_bytes_of(m)) as u64)
                } else {
                    None
                }
            },
        }
    }
}

/// True when the request is a well-formed SET that will write the store:
/// at least three elements, with a string-shaped, UTF-8 command name that
/// folds to `SET` and string-shaped, UTF-8 key and value.
pub open spec fn spec_set_applies(cmds: Seq<RespModel>) -> bool {
    &&& cmds.len() >= 3
    &&& text_ok(cmds[0])
    &&& command_of(cmds) == encode_utf8("SET"@)
    &&& text_ok(cmds[1])
    &&& text_ok(cmds[2])
}

/// The store after a request: a well-formed SET binds its key to its value
/// with the expiry its PX option asks for; every other request leaves the
/// store alone.
pub open spec fn spec_store_after(cmds: Seq<RespModel>, store: StoreModel, now: u64) -> StoreModel {
    if spec_set_applies(cmds) {
        store.insert(
            text_chars_of(cmds[1]),
            (text_chars_of(cmds[2]), spec_expiry(spec_parse_px(cmds.skip(3)), now)),
        )
    } else {
        store
    }
}

/// The reply owed to a request, given the store contents, the time, the
/// server's role, and the number of registered replica sinks.
pub open spec fn spec_response(
    cmds: Seq<RespModel>,
    store: StoreModel,
    now: u64,
    is_replica: bool,
    replica_count: u64,
) -> ResponseModel {
    if cmds.len() == 0 {
        ResponseModel::Normal(RespModel::Error("ERR no command specified"@))
    } else if !is_stringish(cmds[0]) {
        ResponseModel::Normal(RespModel::Error("ERR invalid command: expected string"@))
    } else if !valid_utf8(text_bytes_of(cmds[0])) {
        ResponseModel::Normal(RespModel::Error("ERR invalid command: non-UTF8 data"@))
    } else {
        let name = command_of(cmds);
        if name == encode_utf8("PING"@) {
            if cmds.len() != 1 {
                ResponseModel::Normal(
                    RespModel::Error(
                        "ERR wrong number of arguments for 'ping' command: expected 1"@,
                    ),
                )
            } else {
                ResponseModel::Normal(RespModel::SimpleString("PONG"@))
            }
        } else if name == encode_utf8("SET"@) {
            if cmds.len() < 3 {
                ResponseModel::Normal(
                    RespModel::Error("ERR wrong number of arguments for 'set' command: expected 3"@),
                )
            } else if !is_stringish(cmds[1]) {
                ResponseModel::Normal(RespModel::Error("ERR invalid key: expected string"@))
            } else if !valid_utf8(text_bytes_of(cmds[1])) {
                ResponseModel::Normal(RespModel::Error("ERR invalid key: non-UTF8 data"@))
            } else if !is_stringish(cmds[2]) {
                ResponseModel::Normal(RespModel::Error("ERR invalid value: expected string"@))
            } else if !valid_utf8(text_bytes_of(cmds[2])) {
                ResponseModel::Normal(RespModel::Error("ERR invalid value: non-UTF8 data"@))
            } else {
                ResponseModel::Normal(RespModel::SimpleString("OK"@))
            }
        } else if name == encode_utf8("GET"@) {
            if cmds.len() != 2 {
                ResponseModel::Normal(
                    RespModel::Error("ERR wrong number of arguments for 'get' command: expected 2"@),
                )
            } else if !is_stringish(cmds[1]) {
                ResponseModel::Normal(RespModel::Error("ERR invalid key: expected string"@))
            } else if !valid_utf8(text_bytes_of(cmds[1])) {
                ResponseModel::Normal(RespModel::Error("ERR invalid key: non-UTF8 data"@))
            } else {
                let k = text_chars_of(cmds[1]);
                if store.contains_key(k) && crate::store::entry_live(store[k], now)
                    && store[k].0.len() > 0 {
                    ResponseModel::Normal(RespModel::BulkString(store[k].0))
                } else {
                    ResponseModel::Normal(RespModel::Null)
                }
            }
        } else if name == encode_utf8("ECHO"@) {
            if cmds.len() != 2 {
                ResponseModel::Normal(
                    RespModel::Error(
                        "ERR wrong number of arguments for 'echo' command: expected 2"@,
                    ),
                )
            } else {
                ResponseModel::Normal(cmds[1])
            }
        } else if name == encode_utf8("REPLCONF"@) {
            ResponseModel::Normal(RespModel::SimpleString("OK"@))
        } else if name == encode_utf8("PSYNC"@) {
            if cmds.len() != 3 {
                ResponseModel::Normal(
                    RespModel::Error(
                        "ERR wrong number of arguments for 'psync' command: expected 3"@,
                    ),
                )
            } else {
                ResponseModel::PsyncWithRdb(
                    RespModel::SimpleString(
                        "FULLRESYNC 8371b4fb1155b71f4a04d3e1bc3e18c4a990aeeb 0"@,
                    ),
                )
            }
        } else if name == encode_utf8("INFO"@) {
            if is_replica {
                ResponseModel::Normal(RespModel::BulkString("role:slave"@))
            } else {
                ResponseModel::Normal(
                    RespModel::BulkString(
                        "role:master\r\nmaster_replid:8371b4fb1155b71f4a04d3e1bc3e18c4a990aeeb\r\nmaster_repl_offset:0"@,
                    ),
                )
            }
        } else if name == encode_utf8("WAIT"@) {
            if cmds.len() != 3 {
                ResponseModel::Normal(
                    RespModel::Error(
                        "ERR wrong number of arguments for 'wait' command: expected 3"@,
                    ),
                )
            } else {
                ResponseModel::Normal(RespModel::Integer(replica_count))
            }
        } else {
            ResponseModel::Normal(
                RespModel::Error("ERR unknown command: "@ + decode_utf8(name)),
            )
        }
    }
}

/// The other command names fold to different bytes than `SET`, so no
/// branch but the SET one can touch the store.
proof fn lemma_set_literal_distinct()
    ensures
        encode_utf8("PING"@) != encode_utf8("SET"@),
        encode_utf8("GET"@) != encode_utf8("SET"@),
        encode_utf8("ECHO"@) != encode_utf8("SET"@),
        encode_utf8("REPLCONF"@) != encode_utf8("SET"@),
        encode_utf8("PSYNC"@) != encode_utf8("SET"@),
        encode_utf8("INFO"@) != encode_utf8("SET"@),
        encode_utf8("WAIT"@) != encode_utf8("SET"@),
{
    broadcast use vstd::utf8::is_ascii_chars_encode_utf8;

    reveal_strlit("PING");
    reveal_strlit("SET");
    reveal_strlit("GET");
    reveal_strlit("ECHO");
    reveal_strlit("REPLCONF");
    reveal_strlit("PSYNC");
    reveal_strlit("INFO");
    reveal_strlit("WAIT");
    assert(is_ascii_chars("SET"@));
    assert(is_ascii_chars("GET"@));
    assert(is_ascii_chars("PING"@));
    assert(is_ascii_chars("ECHO"@));
    assert(is_ascii_chars("REPLCONF"@));
    assert(is_ascii_chars("PSYNC"@));
    assert(is_ascii_chars("INFO"@));
    assert(is_ascii_chars("WAIT"@));
    assert(encode_utf8("SET"@).len() == 3);
    assert(encode_utf8("PING"@).len() == 4);
    assert(encode_utf8("GET"@)[0] == 'G' as u8);
    assert(encode_utf8("SET"@)[0] == 'S' as u8);
    assert(encode_utf8("ECHO"@).len() == 4);
    assert(encode_utf8("REPLCONF"@).len() == 8);
    assert(encode_utf8("PSYNC"@).len() == 5);
    assert(encode_utf8("INFO"@).len() == 4);
    assert(encode_utf8("WAIT"@).len() == 4);
}

/// Why a value could not be read as text.
enum TextError {
    NotString,
    NotUtf8,
}

/// True when the bytes are valid UTF-8.
fn utf8_check(b: &Vec<u8>) -> (r: bool)
    ensures
        r == valid_utf8(b@),
{
    let c = copy_bytes(b);
    match vec_to_string(c) {
        Some(_) => true,
        None => false,
    }
}

/// The case-folded bytes of a string-shaped value.
pub(crate) fn fold_text(v: &RespValue) -> (r: Option<Vec<u8>>)
    ensures
        r is Some <==> is_stringish(v@),
        r is Some ==> r->0@ == upper_bytes(text_bytes_of(v@)),
{
    match v {
        RespValue::SimpleString(s) => Some(ascii_upper(s.as_str().as_bytes())),
        RespValue::BulkString(s) => Some(ascii_upper(s.as_str().as_bytes())),
        RespValue::BinaryBulkString(b) => Some(ascii_upper(b.as_slice())),
        _ => None,
    }
}

/// The text of a string-shaped value, or which of the two ways it fails.
fn value_text(v: &RespValue) -> (r: Result<String, TextError>)
    ensures
        r is Ok <==> text_ok(v@),
        r is Ok ==> (r->Ok_0)@ == text_chars_of(v@),
        !is_stringish(v@) ==> r matches Err(TextError::NotString),
        is_stringish(v@) && !valid_utf8(text_bytes_of(v@)) ==> r matches Err(TextError::NotUtf8),
{
    proof {
        broadcast use vstd::utf8::encode_utf8_valid_utf8;
        broadcast use vstd::utf8::encode_utf8_decode_utf8;

    }
    match v {
        RespValue::SimpleString(s) => Ok(crate::text::clone_string(s)),
        RespValue::BulkString(s) => Ok(crate::text::clone_string(s)),
        RespValue::BinaryBulkString(b) => {
            let c = copy_bytes(b);
            match vec_to_string(c) {
                Some(st) => Ok(st),
                None => Err(TextError::NotUtf8),
            }
        },
        _ => Err(TextError::NotString),
    }
}

/// True when the request's first element folds to the name of a write
/// command (`SET`, `DEL`, `INCR`, `DECR`, `LPUSH`, `RPUSH`, `LPOP`,
/// `RPOP`); the master forwards such requests to its replicas.
pub open spec fn spec_is_write(cmds: Seq<RespModel>) -> bool {
    &&& cmds.len() > 0
    &&& is_stringish(cmds[0])
    &&& {
        let name = command_of(cmds);
        ||| name == encode_utf8("SET"@)
        ||| name == encode_utf8("DEL"@)
        ||| name == encode_utf8("INCR"@)
        ||| name == encode_utf8("DECR"@)
        ||| name == encode_utf8("LPUSH"@)
        ||| name == encode_utf8("RPUSH"@)
        ||| name == encode_utf8("LPOP"@)
        ||| name == encode_utf8("RPOP"@)
    }
}

/// Decides whether a request is a write command that the master must fan
/// out to its replicas.
pub fn is_write_command(commands: &[RespValue]) -> (r: bool)
    ensures
        r == spec_is_write(models_of(commands@)),
{
    let ghost cm = models_of(commands@);
    if commands.len() == 0 {
        return false;
    }
    match fold_text(&commands[0]) {
        None => false,
        Some(name) => {
            proof {
                assert(cm[0] == commands@[0]@);
            }
            let r = bytes_eq(name.as_slice(), "SET".as_bytes()) || bytes_eq(
                name.as_slice(),
                "DEL".as_bytes(),
            ) || bytes_eq(name.as_slice(), "INCR".as_bytes()) || bytes_eq(
                name.as_slice(),
                "DECR".as_bytes(),
            ) || bytes_eq(name.as_slice(), "LPUSH".as_bytes()) || bytes_eq(
                name.as_slice(),
                "RPUSH".as_bytes(),
            ) || bytes_eq(name.as_slice(), "LPOP".as_bytes()) || bytes_eq(
                name.as_slice(),
                "RPOP".as_bytes(),
            );
            r
        },
    }
}

/// Answers one decoded request: picks the command by the case-folded first
/// element, runs it against the store, and returns the reply — or, for
/// PSYNC, the reply together with the order to hand the connection over.
pub fn process_command(
    commands: Vec<RespValue>,
    store: &mut CacheStore,
    now: u64,
    is_replica: bool,
    replica_count: u64,
) -> (r: CommandResponse)
    ensures
        r@ == spec_response(models_of(commands@), old(store)@, now, is_replica, replica_count),
        final(store)@ == spec_store_after(models_of(commands@), old(store)@, now),
{
    let ghost cm = models_of(commands@);
    let mut commands = commands;
    if commands.len() == 0 {
        return CommandResponse::Normal(RespValue::Error(String::from_str(
            "ERR no command specified",
        )));
    }
    proof {
        assert(cm[0] == commands@[0]@);
        broadcast use vstd::utf8::encode_utf8_valid_utf8;

    }
    let name_bytes: Vec<u8> = match &commands[0] {
        RespValue::SimpleString(s) => s.as_str().as_bytes_vec(),
        RespValue::BulkString(s) => s.as_str().as_bytes_vec(),
        RespValue::BinaryBulkString(b) => copy_bytes(b),
        _ => {
            return CommandResponse::Normal(RespValue::Error(String::from_str(
                "ERR invalid command: expected string",
            )));
        },
    };
    if !utf8_check(&name_bytes) {
        return CommandResponse::Normal(RespValue::Error(String::from_str(
            "ERR invalid command: non-UTF8 data",
        )));
    }
    let name = ascii_upper(name_bytes.as_slice());
    proof {
        lemma_set_literal_distinct();
    }
    if bytes_eq(name.as_slice(), "PING".as_bytes()) {
        if commands.len() != 1 {
            return CommandResponse::Normal(RespValue::Error(String::from_str(
                "ERR wrong number of arguments for 'ping' command: expected 1",
            )));
        }
        CommandResponse::Normal(RespValue::SimpleString(String::from_str("PONG")))
    } else if bytes_eq(name.as_slice(), "SET".as_bytes()) {
        if commands.len() < 3 {
            return CommandResponse::Normal(RespValue::Error(String::from_str(
                "ERR wrong number of arguments for 'set' command: expected 3",
            )));
        }
        proof {
            assert(cm[1] == commands@[1]@);
            assert(cm[2] == commands@[2]@);
        }
        let key = match value_text(&commands[1]) {
            Err(TextError::NotString) => {
                return CommandResponse::Normal(RespValue::Error(String::from_str(
                    "ERR invalid key: expected string",
                )));
            },
            Err(TextError::NotUtf8) => {
                return CommandResponse::Normal(RespValue::Error(String::from_str(
                    "ERR invalid key: non-UTF8 data",
                )));
            },
            Ok(k) => k,
        };
        let value = match value_text(&commands[2]) {
            Err(TextError::NotString) => {
                return CommandResponse::Normal(RespValue::Error(String::from_str(
                    "ERR invalid value: expected string",
                )));
            },
            Err(TextError::NotUtf8) => {
                return CommandResponse::Normal(RespValue::Error(String::from_str(
                    "ERR invalid value: non-UTF8 data",
                )));
            },
            Ok(v) => v,
        };
        let expiry = if commands.len() > 3 {
            let tail = vstd::slice::slice_subrange(commands.as_slice(), 3, commands.len());
            proof {
                assert(models_of(tail@) =~= cm.skip(3));
            }
            parse_px(tail)
        } else {
            proof {
                assert(cm.skip(3).len() == 0);
            }
            None
        };
        store.set(key, value, expiry, now);
        CommandResponse::Normal(RespValue::SimpleString(String::from_str("OK")))
    } else if bytes_eq(name.as_slice(), "GET".as_bytes()) {
        if commands.len() != 2 {
            return CommandResponse::Normal(RespValue::Error(String::from_str(
                "ERR wrong number of arguments for 'get' command: expected 2",
            )));
        }
        proof {
            assert(cm[1] == commands@[1]@);
        }
        let key = match value_text(&commands[1]) {
            Err(TextError::NotString) => {
                return CommandResponse::Normal(RespValue::Error(String::from_str(
                    "ERR invalid key: expected string",
                )));
            },
            Err(TextError::NotUtf8) => {
                return CommandResponse::Normal(RespValue::Error(String::from_str(
                    "ERR invalid key: non-UTF8 data",
                )));
            },
            Ok(k) => k,
        };
        match store.get(key.as_str(), now) {
            Some(v) => {
                if v.as_str().is_empty() {
                    CommandResponse::Normal(RespValue::Null)
                } else {
                    CommandResponse::Normal(RespValue::BulkString(v))
                }
            },
            None => CommandResponse::Normal(RespValue::Null),
        }
    } else if bytes_eq(name.as_slice(), "ECHO".as_bytes()) {
        if commands.len() != 2 {
            return CommandResponse::Normal(RespValue::Error(String::from_str(
                "ERR wrong number of arguments for 'echo' command: expected 2",
            )));
        }
        proof {
            assert(cm[1] == commands@[1]@);
        }
        let v = commands.remove(1);
        CommandResponse::Normal(v)
    } else if bytes_eq(name.as_slice(), "REPLCONF".as_bytes()) {
        CommandResponse::Normal(RespValue::SimpleString(String::from_str("OK")))
    } else if bytes_eq(name.as_slice(), "PSYNC".as_bytes()) {
        if commands.len() != 3 {
            return CommandResponse::Normal(RespValue::Error(String::from_str(
                "ERR wrong number of arguments for 'psync' command: expected 3",
            )));
        }
        CommandResponse::PsyncWithRdb(RespValue::SimpleString(String::from_str(
            "FULLRESYNC 8371b4fb1155b71f4a04d3e1bc3e18c4a990aeeb 0",
        )))
    } else if bytes_eq(name.as_slice(), "INFO".as_bytes()) {
        if is_replica {
            CommandResponse::Normal(RespValue::BulkString(String::from_str("role:slave")))
        } else {
            CommandResponse::Normal(RespValue::BulkString(String::from_str(
                "role:master\r\nmaster_replid:8371b4fb1155b71f4a04d3e1bc3e18c4a990aeeb\r\nmaster_repl_offset:0",
            )))
        }
    } else if bytes_eq(name.as_slice(), "WAIT".as_bytes()) {
        if commands.len() != 3 {
            return CommandResponse::Normal(RespValue::Error(String::from_str(
                "ERR wrong number of arguments for 'wait' command: expected 3",
            )));
        }
        CommandResponse::Normal(RespValue::Integer(replica_count))
    } else {
        proof {
            lemma_upper_bytes_valid_utf8(text_bytes_of(cm[0]));
        }
        match vec_to_string(name) {
            Some(name_str) => {
                let mut msg = String::from_str("ERR unknown command: ");
                msg.append(name_str.as_str());
                CommandResponse::Normal(RespValue::Error(msg))
            },
            None => {
                proof {
                    assert(false);
                }
                CommandResponse::Normal(RespValue::Null)
            },
        }
    }
}

/// Applies one command propagated by the master to the local store,
/// silently: only a well-formed SET writes; everything else is a no-op.
pub fn process_command_for_replica(commands: Vec<RespValue>, store: &mut CacheStore, now: u64)
    ensures
        final(store)@ == spec_store_after(models_of(commands@), old(store)@, now),
{
    let ghost cm = models_of(commands@);
    if commands.len() == 0 {
        return ;
    }
    proof {
        assert(cm[0] == commands@[0]@);
        broadcast use vstd::utf8::encode_utf8_valid_utf8;

    }
    let name_bytes: Vec<u8> = match &commands[0] {
        RespValue::SimpleString(s) => s.as_str().as_bytes_vec(),
        RespValue::BulkString(s) => s.as_str().as_bytes_vec(),
        RespValue::BinaryBulkString(b) => copy_bytes(b),
        _ => {
            return ;
        },
    };
    if !utf8_check(&name_bytes) {
        return ;
    }
    let name = ascii_upper(name_bytes.as_slice());
    if !bytes_eq(name.as_slice(), "SET".as_bytes()) {
        return ;
    }
    if commands.len() < 3 {
        return ;
    }
    proof {
        assert(cm[1] == commands@[1]@);
        assert(cm[2] == commands@[2]@);
    }
    let key = match value_text(&commands[1]) {
        Err(_) => {
            return ;
        },
        Ok(k) => k,
    };
    let value = match value_text(&commands[2]) {
        Err(_) => {
            return ;
        },
        Ok(v) => v,
    };
    let expiry = if commands.len() > 3 {
        let tail = vstd::slice::slice_subrange(commands.as_slice(), 3, commands.len());
        proof {
            assert(models_of(tail@) =~= cm.skip(3));
        }
        parse_px(tail)
    } else {
        proof {
            assert(cm.skip(3).len() == 0);
        }
        None
    };
    store.set(key, value, expiry, now);
}

/// Reads the trailing SET arguments for a `PX <milliseconds>` option; any
/// other shape silently yields no time-to-live.
pub fn parse_px(args: &[RespValue]) -> (r: Option<u64>)
    ensures
        r == spec_parse_px(models_of(args@)),
{
    let ghost am = models_of(args@);
    if args.len() < 2 {
        return None;
    }
    proof {
        assert(am[0] == args@[0]@);
        assert(am[1] == args@[1]@);
    }
    let px_token = match fold_text(&args[0]) {
        None => {
            return None;
        },
        Some(t) => t,
    };
    if !bytes_eq(px_token.as_slice(), "PX".as_bytes()) {
        return None;
    }
    match &args[1] {
        RespValue::Integer(i) => Some(*i),
        RespValue::SimpleString(s) => parse_u64(s.as_str().as_bytes()),
        RespValue::BulkString(s) => parse_u64(s.as_str().as_bytes()),
        RespValue::BinaryBulkString(b) => parse_u64(b.as_slice()),
        _ => None,
    }
}

} // verus!
