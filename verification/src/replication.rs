//! The replication protocol: the replica's handshake driver, the master's
//! snapshot payload, and the replica-side offset accounting.
use vstd::prelude::*;
use vstd::utf8::{decode_utf8, encode_utf8};

use crate::codec::{spec_encode, RespCodec};
use crate::dispatch::{
    is_stringish, process_command_for_replica, spec_store_after, text_bytes_of,
};
use crate::model::{lemma_model_of_array, models_of, RespModel, RespValue};
use crate::store::CacheStore;
use crate::text::{bytes_eq, dec_digits, u64_to_string, upper_bytes};

verus! {

/// The bytes of the empty snapshot a master hands a replica after
/// FULLRESYNC: a minimal, fixed database image with its checksum.
pub open spec fn spec_empty_rdb() -> Seq<u8> {
    seq![
        0x52u8, 0x45u8, 0x44u8, 0x49u8, 0x53u8, 0x30u8, 0x30u8, 0x31u8,
        0x31u8, 0xfau8, 0x09u8, 0x72u8, 0x65u8, 0x64u8, 0x69u8, 0x73u8,
        0x2du8, 0x76u8, 0x65u8, 0x72u8, 0x05u8, 0x37u8, 0x2eu8, 0x32u8,
        0x2eu8, 0x30u8, 0xfau8, 0x0au8, 0x72u8, 0x65u8, 0x64u8, 0x69u8,
        0x73u8, 0x2du8, 0x62u8, 0x69u8, 0x74u8, 0x73u8, 0xc0u8, 0x40u8,
        0xfau8, 0x05u8, 0x63u8, 0x74u8, 0x69u8, 0x6du8, 0x65u8, 0xc2u8,
        0x6du8, 0x08u8, 0xbcu8, 0x65u8, 0xfau8, 0x08u8, 0x75u8, 0x73u8,
        0x65u8, 0x64u8, 0x2du8, 0x6du8, 0x65u8, 0x6du8, 0xc2u8, 0xb0u8,
        0xc4u8, 0x10u8, 0x00u8, 0xfau8, 0x08u8, 0x61u8, 0x6fu8, 0x66u8,
        0x2du8, 0x62u8, 0x61u8, 0x73u8, 0x65u8, 0xc0u8, 0x00u8, 0xffu8,
        0xf0u8, 0x6eu8, 0x3bu8, 0xfeu8, 0xc0u8, 0xffu8, 0x5au8, 0xa2u8,
    ]
}

/// The snapshot blob the master writes after its FULLRESYNC reply, as
/// `$<len>` CRLF followed by exactly these bytes and no trailing CRLF.
pub fn empty_rdb() -> (r: Vec<u8>)
    ensures
        r@ == spec_empty_rdb(),
{
    let mut r: Vec<u8> = Vec::new();
    r.push(0x52);
    r.push(0x45);
    r.push(0x44);
    r.push(0x49);
    r.push(0x53);
    r.push(0x30);
    r.push(0x30);
    r.push(0x31);
    r.push(0x31);
    r.push(0xfa);
    r.push(0x09);
    r.push(0x72);
    r.push(0x65);
    r.push(0x64);
    r.push(0x69);
    r.push(0x73);
    r.push(0x2d);
    r.push(0x76);
    r.push(0x65);
    r.push(0x72);
    r.push(0x05);
    r.push(0x37);
    r.push(0x2e);
    r.push(0x32);
    r.push(0x2e);
    r.push(0x30);
    r.push(0xfa);
    r.push(0x0a);
    r.push(0x72);
    r.push(0x65);
    r.push(0x64);
    r.push(0x69);
    r.push(0x73);
    r.push(0x2d);
    r.push(0x62);
    r.push(0x69);
    r.push(0x74);
    r.push(0x73);
    r.push(0xc0);
    r.push(0x40);
    r.push(0xfa);
    r.push(0x05);
    r.push(0x63);
    r.push(0x74);
    r.push(0x69);
    r.push(0x6d);
    r.push(0x65);
    r.push(0xc2);
    r.push(0x6d);
    r.push(0x08);
    r.push(0xbc);
    r.push(0x65);
    r.push(0xfa);
    r.push(0x08);
    r.push(0x75);
    r.push(0x73);
    r.push(0x65);
    r.push(0x64);
    r.push(0x2d);
    r.push(0x6d);
    r.push(0x65);
    r.push(0x6d);
    r.push(0xc2);
    r.push(0xb0);
    r.push(0xc4);
    r.push(0x10);
    r.push(0x00);
    r.push(0xfa);
    r.push(0x08);
    r.push(0x61);
    r.push(0x6f);
    r.push(0x66);
    r.push(0x2d);
    r.push(0x62);
    r.push(0x61);
    r.push(0x73);
    r.push(0x65);
    r.push(0xc0);
    r.push(0x00);
    r.push(0xff);
    r.push(0xf0);
    r.push(0x6e);
    r.push(0x3b);
    r.push(0xfe);
    r.push(0xc0);
    r.push(0xff);
    r.push(0x5a);
    r.push(0xa2);
    proof {
        assert(r@ =~= spec_empty_rdb());
    }
    r
}

/// Where the replica stands in its four-step handshake against the master.
#[derive(Debug, PartialEq, Eq, Clone, Copy, Structural)]
pub enum HandshakeStep {
    Ping,
    ListeningPort,
    Capa,
    Psync,
    Done,
}

/// The step after `step` succeeds.
pub open spec fn spec_next_step(step: HandshakeStep) -> HandshakeStep {
    match step {
        HandshakeStep::Ping => HandshakeStep::ListeningPort,
        HandshakeStep::ListeningPort => HandshakeStep::Capa,
        HandshakeStep::Capa => HandshakeStep::Psync,
        HandshakeStep::Psync => HandshakeStep::Done,
        HandshakeStep::Done => HandshakeStep::Done,
    }
}

/// The bytes the replica must send for `step`, if the handshake is not
/// over: PING, then REPLCONF listening-port with its own port, then
/// REPLCONF capa psync2, then PSYNC ? -1.
pub open spec fn spec_handshake_request(step: HandshakeStep, port: u16) -> Option<Seq<u8>> {
    match step {
        HandshakeStep::Ping => Some(
            spec_encode(RespModel::Array(seq![RespModel::BulkString("PING"@)])),
        ),
        HandshakeStep::ListeningPort => Some(
            spec_encode(
                RespModel::Array(
                    seq![
                        RespModel::BulkString("REPLCONF"@),
                        RespModel::BulkString("listening-port"@),
                        RespModel::BulkString(decode_utf8(dec_digits(port as nat))),
                    ],
                ),
            ),
        ),
        HandshakeStep::Capa => Some(
            spec_encode(
                RespModel::Array(
                    seq![
                        RespModel::BulkString("REPLCONF"@),
                        RespModel::BulkString("capa"@),
                        RespModel::BulkString("psync2"@),
                    ],
                ),
            ),
        ),
        HandshakeStep::Psync => Some(
            spec_encode(
                RespModel::Array(
                    seq![
                        RespModel::BulkString("PSYNC"@),
                        RespModel::BulkString("?"@),
                        RespModel::BulkString("-1"@),
                    ],
                ),
            ),
        ),
        HandshakeStep::Done => None,
    }
}

/// True when `resp` is the master's answer that `step` demands: PONG for
/// the ping, OK for the two REPLCONF steps, and a simple string beginning
/// with `FULLRESYNC ` for the PSYNC.
pub open spec fn spec_handshake_accepts(step: HandshakeStep, resp: RespModel) -> bool {
    match step {
        HandshakeStep::Ping => resp == RespModel::SimpleString("PONG"@),
        HandshakeStep::ListeningPort => resp == RespModel::SimpleString("OK"@),
        HandshakeStep::Capa => resp == RespModel::SimpleString("OK"@),
        HandshakeStep::Psync => match resp {
            RespModel::SimpleString(s) => encode_utf8(s).len() >= 11 && encode_utf8(s).take(11)
                == encode_utf8("FULLRESYNC "@),
            _ => false,
        },
        HandshakeStep::Done => false,
    }
}

/// Drives the replica's handshake: yields each request to send, checks
/// each response, and reports when the stream switches to snapshot and
/// propagation mode. Any unexpected response leaves the handshake where it
/// stands, and the caller abandons it.
pub struct Handshake {
    step: HandshakeStep,
    port: u16,
}

impl Handshake {
    /// The current step.
    pub closed spec fn spec_step(&self) -> HandshakeStep {
        self.step
    }

    /// The replica's own listening port, as sent to the master.
    pub closed spec fn spec_port(&self) -> u16 {
        self.port
    }

    /// A handshake about to send PING, for a replica listening on `port`.
    pub fn new(port: u16) -> (r: Self)
        ensures
            r.spec_step() == HandshakeStep::Ping,
            r.spec_port() == port,
    {
        Handshake { step: HandshakeStep::Ping, port }
    }

    /// The current step, for the caller's loop.
    pub fn step(&self) -> (r: HandshakeStep)
        ensures
            r == self.spec_step(),
    {
        self.step
    }

    /// The encoded command to send next, or nothing once the handshake is
    /// done.
    pub fn request(&self) -> (r: Option<Vec<u8>>)
        ensures
            r is Some <==> spec_handshake_request(self.spec_step(), self.spec_port()) is Some,
            r is Some ==> r->0@ == spec_handshake_request(self.spec_step(), self.spec_port())->0,
    {
        match self.step {
            HandshakeStep::Ping => {
                let mut items: Vec<RespValue> = Vec::new();
                items.push(RespValue::BulkString(String::from_str("PING")));
                let arr = RespValue::Array(items);
                let r = RespCodec::encode(&arr);
                proof {
                    lemma_request_model(&arr, seq![RespModel::BulkString("PING"@)]);
                }
                Some(r)
            },
            HandshakeStep::ListeningPort => {
                let mut items: Vec<RespValue> = Vec::new();
                items.push(RespValue::BulkString(String::from_str("REPLCONF")));
                items.push(RespValue::BulkString(String::from_str("listening-port")));
                items.push(RespValue::BulkString(u64_to_string(self.port as u64)));
                let arr = RespValue::Array(items);
                let r = RespCodec::encode(&arr);
                proof {
                    lemma_request_model(
                        &arr,
                        seq![
                            RespModel::BulkString("REPLCONF"@),
                            RespModel::BulkString("listening-port"@),
                            RespModel::BulkString(decode_utf8(dec_digits(self.port as nat))),
                        ],
                    );
                }
                Some(r)
            },
            HandshakeStep::Capa => {
                let mut items: Vec<RespValue> = Vec::new();
                items.push(RespValue::BulkString(String::from_str("REPLCONF")));
                items.push(RespValue::BulkString(String::from_str("capa")));
                items.push(RespValue::BulkString(String::from_str("psync2")));
                let arr = RespValue::Array(items);
                let r = RespCodec::encode(&arr);
                proof {
                    lemma_request_model(
                        &arr,
                        seq![
                            RespModel::BulkString("REPLCONF"@),
                            RespModel::BulkString("capa"@),
                            RespModel::BulkString("psync2"@),
                        ],
                    );
                }
                Some(r)
            },
            HandshakeStep::Psync => {
                let mut items: Vec<RespValue> = Vec::new();
                items.push(RespValue::BulkString(String::from_str("PSYNC")));
                items.push(RespValue::BulkString(String::from_str("?")));
                items.push(RespValue::BulkString(String::from_str("-1")));
                let arr = RespValue::Array(items);
                let r = RespCodec::encode(&arr);
                proof {
                    lemma_request_model(
                        &arr,
                        seq![
                            RespModel::BulkString("PSYNC"@),
                            RespModel::BulkString("?"@),
                            RespModel::BulkString("-1"@),
                        ],
                    );
                }
                Some(r)
            },
            HandshakeStep::Done => None,
        }
    }

    /// Checks the master's response for the current step and, when it is
    /// the expected one, advances to the next step.
    pub fn on_response(&mut self, resp: &RespValue) -> (ok: bool)
        ensures
            ok == spec_handshake_accepts(old(self).spec_step(), resp@),
            final(self).spec_port() == old(self).spec_port(),
            final(self).spec_step() == if spec_handshake_accepts(old(self).spec_step(), resp@) {
                spec_next_step(old(self).spec_step())
            } else {
                old(self).spec_step()
            },
    {
        let ok: bool = match self.step {
            HandshakeStep::Ping => match resp {
                RespValue::SimpleString(s) => crate::text::str_eq(s.as_str(), "PONG"),
                _ => false,
            },
            HandshakeStep::ListeningPort => match resp {
                RespValue::SimpleString(s) => crate::text::str_eq(s.as_str(), "OK"),
                _ => false,
            },
            HandshakeStep::Capa => match resp {
                RespValue::SimpleString(s) => crate::text::str_eq(s.as_str(), "OK"),
                _ => false,
            },
            HandshakeStep::Psync => match resp {
                RespValue::SimpleString(s) => {
                    let sb = s.as_str().as_bytes();
                    if sb.len() < 11 {
                        false
                    } else {
                        let prefix = vstd::slice::slice_subrange(sb, 0, 11);
                        proof {
                            assert(prefix@ =~= encode_utf8(s@).take(11));
                        }
                        bytes_eq(prefix, "FULLRESYNC ".as_bytes())
                    }
                },
                _ => false,
            },
            HandshakeStep::Done => false,
        };
        if ok {
            self.step = match self.step {
                HandshakeStep::Ping => HandshakeStep::ListeningPort,
                HandshakeStep::ListeningPort => HandshakeStep::Capa,
                HandshakeStep::Capa => HandshakeStep::Psync,
                HandshakeStep::Psync => HandshakeStep::Done,
                HandshakeStep::Done => HandshakeStep::Done,
            };
        }
        ok
    }
}

/// Ties an array built from pushed elements to its intended ghost shape.
proof fn lemma_request_model(arr: &RespValue, items: Seq<RespModel>)
    requires
        arr is Array,
        models_of((arr->Array_0)@) =~= items,
    ensures
        arr@ == RespModel::Array(items),
{
    lemma_model_of_array(arr->Array_0);
}

/// Reads a snapshot header line (without its CRLF): `$` followed by the
/// decimal byte count of the blob that follows.
pub fn parse_snapshot_header(line: &[u8]) -> (r: Option<u64>)
    ensures
        r is Some <==> line@.len() >= 2 && line@[0] == 36 && crate::text::all_digits(
            line@.skip(1),
        ) && crate::text::digits_val(line@.skip(1)) <= u64::MAX,
        r is Some ==> r->0 == crate::text::digits_val(line@.skip(1)),
{
    if line.len() < 2 {
        return None;
    }
    if line[0] != 36 {
        return None;
    }
    let digits = vstd::slice::slice_subrange(line, 1, line.len());
    proof {
        assert(digits@ =~= line@.skip(1));
    }
    crate::text::parse_u64(digits)
}

/// True when the master's command is `REPLCONF GETACK …`, which the
/// replica answers with its offset.
pub open spec fn spec_is_getack(ms: Seq<RespModel>) -> bool {
    &&& ms.len() >= 3
    &&& is_stringish(ms[0])
    &&& upper_bytes(text_bytes_of(ms[0])) == encode_utf8("REPLCONF"@)
    &&& is_stringish(ms[1])
    &&& upper_bytes(text_bytes_of(ms[1])) == encode_utf8("GETACK"@)
}

/// True when the master's command is a PING, which the replica swallows.
pub open spec fn spec_is_ping(ms: Seq<RespModel>) -> bool {
    &&& ms.len() >= 1
    &&& is_stringish(ms[0])
    &&& upper_bytes(text_bytes_of(ms[0])) == encode_utf8("PING"@)
}

/// The offset after one more propagated command: the old offset plus the
/// command's encoded byte length, saturating at the largest representable
/// count.
pub open spec fn spec_advance(offset: u64, ms: Seq<RespModel>) -> u64 {
    let l = spec_encode(RespModel::Array(ms)).len();
    if offset + l > u64::MAX {
        u64::MAX
    } else {
        (offset + l) as u64
    }
}

/// The `REPLCONF ACK <offset>` bytes a replica sends for a GETACK.
pub open spec fn spec_ack_reply(offset: u64) -> Seq<u8> {
    spec_encode(
        RespModel::Array(
            seq![
                RespModel::BulkString("REPLCONF"@),
                RespModel::BulkString("ACK"@),
                RespModel::BulkString(decode_utf8(dec_digits(offset as nat))),
            ],
        ),
    )
}

/// The replica's end of the propagation stream: how many bytes of master
/// traffic it has consumed.
pub struct ReplicaSession {
    /// The encoded byte length of every command read from the master so
    /// far, starting at zero just after the snapshot.
    pub offset: u64,
}

impl ReplicaSession {
    /// A session that has just finished ingesting the snapshot.
    pub fn new() -> (r: Self)
        ensures
            r.offset == 0,
    {
        ReplicaSession { offset: 0 }
    }

    /// Consumes one command read from the master stream: answers a
    /// `REPLCONF GETACK` with `REPLCONF ACK <offset before this command>`,
    /// swallows a PING, and applies anything else to the store; in every
    /// case the offset advances by the command's encoded byte length.
    pub fn apply(
        &mut self,
        commands: Vec<RespValue>,
        store: &mut CacheStore,
        now: u64,
    ) -> (reply: Option<Vec<u8>>)
        ensures
            final(self).offset == spec_advance(old(self).offset, models_of(commands@)),
            reply is Some <==> spec_is_getack(models_of(commands@)),
            reply is Some ==> reply->0@ == spec_ack_reply(old(self).offset),
            final(store)@ == if spec_is_getack(models_of(commands@)) || spec_is_ping(
                models_of(commands@),
            ) {
                old(store)@
            } else {
                spec_store_after(models_of(commands@), old(store)@, now)
            },
    {
        let ghost cm = models_of(commands@);
        let arr = RespValue::Array(commands);
        let encoded = RespCodec::encode(&arr);
        proof {
            assert(arr->Array_0@ == commands@);
            lemma_model_of_array(arr->Array_0);
        }
        let commands: Vec<RespValue> = match arr {
            RespValue::Array(c) => c,
            _ => {
                proof {
                    assert(false);
                }
                Vec::new()
            },
        };
        let len = encoded.len() as u64;
        let is_getack: bool = if commands.len() >= 3 {
            proof {
                assert(cm[0] == commands@[0]@);
                assert(cm[1] == commands@[1]@);
            }
            match crate::dispatch::fold_text(&commands[0]) {
                Some(name) => {
                    if bytes_eq(name.as_slice(), "REPLCONF".as_bytes()) {
                        match crate::dispatch::fold_text(&commands[1]) {
                            Some(sub) => bytes_eq(sub.as_slice(), "GETACK".as_bytes()),
                            None => false,
                        }
                    } else {
                        false
                    }
                },
                None => false,
            }
        } else {
            false
        };
        let reply: Option<Vec<u8>> = if is_getack {
            let mut items: Vec<RespValue> = Vec::new();
            items.push(RespValue::BulkString(String::from_str("REPLCONF")));
            items.push(RespValue::BulkString(String::from_str("ACK")));
            items.push(RespValue::BulkString(u64_to_string(self.offset)));
            let ack = RespValue::Array(items);
            let bytes = RespCodec::encode(&ack);
            proof {
                lemma_request_model(
                    &ack,
                    seq![
                        RespModel::BulkString("REPLCONF"@),
                        RespModel::BulkString("ACK"@),
                        RespModel::BulkString(decode_utf8(dec_digits(self.offset as nat))),
                    ],
                );
            }
            Some(bytes)
        } else {
            let is_ping: bool = if commands.len() >= 1 {
                proof {
                    assert(cm[0] == commands@[0]@);
                }
                match crate::dispatch::fold_text(&commands[0]) {
                    Some(name) => bytes_eq(name.as_slice(), "PING".as_bytes()),
                    None => false,
                }
            } else {
                false
            };
            if !is_ping {
                process_command_for_replica(commands, store, now);
            }
            None
        };
        self.offset = if self.offset > u64::MAX - len {
            u64::MAX
        } else {
            self.offset + len
        };
        reply
    }
}

/// The offset a fresh session reaches after consuming a run of commands,
/// one `apply` at a time.
pub open spec fn spec_offset_after(history: Seq<Seq<RespModel>>) -> u64
    decreases history.len(),
{
    if history.len() == 0 {
        0
    } else {
        spec_advance(spec_offset_after(history.drop_last()), history.last())
    }
}

/// The total encoded byte length of a run of commands.
pub open spec fn total_encoded(history: Seq<Seq<RespModel>>) -> int
    decreases history.len(),
{
    if history.len() == 0 {
        0
    } else {
        total_encoded(history.drop_last()) + spec_encode(RespModel::Array(history.last())).len()
    }
}

/// A replica that has consumed commands totalling B encoded bytes stands
/// at offset B, as long as B is representable; so the ACK it sends for a
/// GETACK reports the bytes of every command before that GETACK and not
/// the GETACK itself.
pub proof fn lemma_offset_accounts(history: Seq<Seq<RespModel>>)
    requires
        total_encoded(history) <= u64::MAX,
    ensures
        spec_offset_after(history) == total_encoded(history),
    decreases history.len(),
{
    if history.len() > 0 {
        assert(total_encoded(history.drop_last()) <= u64::MAX) by {
            lemma_total_encoded_nonneg(history.drop_last());
        }
        lemma_offset_accounts(history.drop_last());
    }
}

/// Encoded lengths never go negative.
proof fn lemma_total_encoded_nonneg(history: Seq<Seq<RespModel>>)
    ensures
        total_encoded(history) >= 0,
    decreases history.len(),
{
    if history.len() > 0 {
        lemma_total_encoded_nonneg(history.drop_last());
    }
}

} // verus!
