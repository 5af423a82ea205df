//! Startup configuration: the server's role and replication wiring,
//! fixed once at startup.
use vstd::prelude::*;
use vstd::utf8::encode_utf8;

use crate::text::{all_digits, digits_val, parse_u64};

verus! {

/// Who this server is: a master, or a replica of the named master.
/// Built once from the command line and immutable thereafter.
#[derive(Debug)]
pub struct ReplicaConfig {
    pub master_host: Option<String>,
    pub master_port: Option<u16>,
    pub replica_host: String,
    pub replica_port: u16,
    pub role: String,
    pub master_replid: String,
    pub master_repl_offset: u64,
    pub connected_slaves: u32,
}

/// Reads a decimal port number: the value exactly when the text is
/// nonempty, all digits, and at most 65535.
pub fn parse_port(s: &str) -> (r: Option<u16>)
    ensures
        ({
            let b = encode_utf8(s@);
            &&& r is Some <==> b.len() > 0 && all_digits(b) && digits_val(b) <= u16::MAX
            &&& r is Some ==> r->0 == digits_val(b)
        }),
{
    match parse_u64(s.as_bytes()) {
        Some(v) => {
            if v <= 65535 {
                Some(v as u16)
            } else {
                None
            }
        },
        None => None,
    }
}

/// True when `i` marks the first space of `b` and splits it into a
/// nonempty host part and a part that reads as a decimal port number.
pub open spec fn splits_host_port(b: Seq<u8>, i: int) -> bool {
    &&& 0 < i < b.len()
    &&& b[i] == 32
    &&& (forall|j: int| 0 <= j < i ==> b[j] != 32)
    &&& {
        let pb = b.skip(i + 1);
        pb.len() > 0 && all_digits(pb) && digits_val(pb) <= u16::MAX
    }
}

/// Splits a `"<host> <port>"` argument at its first space into the host
/// and a parsed port: exactly when there is a space, the host before it is
/// nonempty, and what follows reads as a decimal port number.
pub fn split_host_port(s: &str) -> (r: Option<(String, u16)>)
    ensures
        r is Some <==> exists|i: int| splits_host_port(encode_utf8(s@), i),
        (match r {
            Some((host, port)) => exists|i: int|
                {
                    &&& #[trigger] splits_host_port(encode_utf8(s@), i)
                    &&& encode_utf8(host@) == encode_utf8(s@).take(i)
                    &&& port == digits_val(encode_utf8(s@).skip(i + 1))
                },
            None => true,
        }),
{
    broadcast use vstd::utf8::encode_utf8_decode_utf8;
    broadcast use vstd::utf8::encode_utf8_valid_utf8;

    let b = s.as_bytes();
    let mut i: usize = 0;
    while i < b.len()
        invariant
            b@ == encode_utf8(s@),
            0 <= i <= b@.len(),
            forall|j: int| 0 <= j < i ==> b@[j] != 32,
        decreases b@.len() - i,
    {
        if b[i] == 32 {
            proof {
                assert forall|k: int| splits_host_port(b@, k) implies k == i as int by {
                    if k < i {
                        assert(b@[k] != 32);
                    }
                    if k > i {
                        assert(b@[i as int] != 32);
                    }
                }
            }
            if i == 0 {
                proof {
                    assert(forall|k: int| !splits_host_port(b@, k));
                }
                return None;
            }
            let host_bytes = vstd::slice::slice_to_vec(vstd::slice::slice_subrange(b, 0, i));
            let port_bytes = vstd::slice::slice_subrange(b, i + 1, b.len());
            proof {
                assert(host_bytes@ =~= b@.take(i as int));
                assert(port_bytes@ =~= b@.skip(i as int + 1));
                assert(vstd::utf8::valid_utf8(b@)) by {
                    vstd::utf8::encode_utf8_valid_utf8(s@);
                }
                vstd::utf8::is_char_boundary_iff_not_is_continuation_byte(b@, i as int);
                assert(vstd::utf8::is_char_boundary(b@, i as int));
                vstd::utf8::valid_utf8_split(b@, i as int);
                assert(b@.take(i as int) =~= b@.subrange(0, i as int));
            }
            let port = match parse_u64(port_bytes) {
                Some(v) => {
                    if v <= 65535 {
                        v as u16
                    } else {
                        proof {
                            assert(forall|k: int| !splits_host_port(b@, k));
                        }
                        return None;
                    }
                },
                None => {
                    proof {
                        assert(forall|k: int| !splits_host_port(b@, k));
                    }
                    return None;
                },
            };
            let host = match crate::text::vec_to_string(host_bytes) {
                Some(h) => h,
                None => {
                    proof {
                        assert(false);
                    }
                    return None;
                },
            };
            proof {
                assert(encode_utf8(host@) =~= b@.take(i as int)) by {
                    vstd::utf8::decode_utf8_encode_utf8(b@.take(i as int));
                }
                assert(splits_host_port(b@, i as int));
            }
            return Some((host, port));
        }
        i = i + 1;
    }
    proof {
        assert forall|k: int| !splits_host_port(b@, k) by {
            if 0 < k < b@.len() {
                assert(b@[k] != 32);
            }
        }
    }
    None
}

} // verus!
