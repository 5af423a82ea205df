//! The RESP wire codec: a pure pair of functions between bytes and values.
//!
//! `spec_encode` is the mathematical wire form of a value; `spec_decode` is
//! the mathematical reading of a byte prefix. The executable codec is proved
//! against both, and the round-trip lemmas at the bottom tie the two
//! together.
use vstd::prelude::*;
use vstd::utf8::{decode_utf8, encode_utf8, valid_utf8};

use crate::model::{lemma_model_of_array, model_of, models_of, RespModel, RespValue};
use crate::text::{
    all_digits, dec_digits, digits_val, is_digit, lemma_dec_digits_are_digits,
    lemma_dec_digits_val, parse_u64, u64_to_decimal, vec_to_string,
};

verus! {

/// The two-byte line terminator.
pub open spec fn crlf() -> Seq<u8> {
    seq![13u8, 10u8]
}

/// The wire form of a bulk payload: `$`, the decimal byte length, CRLF, the
/// payload, CRLF.
pub open spec fn spec_encode_bulk(b: Seq<u8>) -> Seq<u8> {
    seq![36u8] + dec_digits(b.len()) + crlf() + b + crlf()
}

/// The wire form of a value, as laid down by the encoder.
pub open spec fn spec_encode(m: RespModel) -> Seq<u8>
    decreases m,
    via spec_encode_decreases
{
    match m {
        RespModel::SimpleString(s) => seq![43u8] + encode_utf8(s) + crlf(),
        RespModel::Error(s) => seq![45u8] + encode_utf8(s) + crlf(),
        RespModel::Integer(n) => seq![58u8] + dec_digits(n as nat) + crlf(),
        RespModel::BulkString(s) => spec_encode_bulk(encode_utf8(s)),
        RespModel::BinaryBulkString(b) => spec_encode_bulk(b),
        RespModel::Null => seq![36u8, 45u8, 49u8] + crlf(),
        RespModel::NullArray => seq![42u8, 45u8, 49u8] + crlf(),
        RespModel::Array(items) => seq![42u8] + dec_digits(items.len()) + crlf()
            + spec_encode_items(items),
    }
}

/// The concatenation of the wire forms of the values of `items`, in order.
pub open spec fn spec_encode_items(items: Seq<RespModel>) -> Seq<u8>
    decreases items,
    via spec_encode_items_decreases
{
    if items.len() == 0 {
        Seq::empty()
    } else {
        spec_encode(items[0]) + spec_encode_items(items.drop_first())
    }
}

#[via_fn]
proof fn spec_encode_decreases(m: RespModel) {
    match m {
        RespModel::Array(items) => {
            assert(decreases_to!(m => items));
        },
        _ => {},
    }
}

#[via_fn]
proof fn spec_encode_items_decreases(items: Seq<RespModel>) {
    broadcast use vstd::seq::axiom_seq_index_decreases;
    broadcast use vstd::seq::axiom_seq_subrange_decreases;

    if items.len() > 0 {
        assert(decreases_to!(items => items[0]));
        assert(items.drop_first() == items.subrange(1, items.len() as int));
        assert(decreases_to!(items => items.subrange(1, items.len() as int)));
    }
}

/// The RESP codec: `encode` turns a value into its wire bytes, `decode`
/// reads one value off the front of a byte buffer.
pub struct RespCodec;

impl RespCodec {
    /// Encodes `value` into its RESP wire form.
    pub fn encode(value: &RespValue) -> (r: Vec<u8>)
        ensures
            r@ == spec_encode(value@),
        decreases *value,
    {
        match value {
            RespValue::SimpleString(s) => {
                let mut r: Vec<u8> = Vec::new();
                r.push(43);
                let mut body = s.as_str().as_bytes_vec();
                r.append(&mut body);
                r.push(13);
                r.push(10);
                proof {
                    assert(r@ =~= spec_encode(value@));
                }
                r
            },
            RespValue::Error(s) => {
                let mut r: Vec<u8> = Vec::new();
                r.push(45);
                let mut body = s.as_str().as_bytes_vec();
                r.append(&mut body);
                r.push(13);
                r.push(10);
                proof {
                    assert(r@ =~= spec_encode(value@));
                }
                r
            },
            RespValue::Integer(n) => {
                let mut r: Vec<u8> = Vec::new();
                r.push(58);
                let mut digits = u64_to_decimal(*n);
                r.append(&mut digits);
                r.push(13);
                r.push(10);
                proof {
                    assert(r@ =~= spec_encode(value@));
                }
                r
            },
            RespValue::BulkString(s) => {
                let body = s.as_str().as_bytes_vec();
                let r = Self::encode_bulk_payload(body);
                proof {
                    assert(r@ =~= spec_encode(value@));
                }
                r
            },
            RespValue::BinaryBulkString(b) => {
                let mut body: Vec<u8> = Vec::new();
                body.extend_from_slice(b.as_slice());
                proof {
                    assert(body@ =~= b@);
                }
                let r = Self::encode_bulk_payload(body);
                proof {
                    assert(r@ =~= spec_encode(value@));
                }
                r
            },
            RespValue::Null => {
                let mut r: Vec<u8> = Vec::new();
                r.push(36);
                r.push(45);
                r.push(49);
                r.push(13);
                r.push(10);
                proof {
                    assert(r@ =~= spec_encode(value@));
                }
                r
            },
            RespValue::NullArray => {
                let mut r: Vec<u8> = Vec::new();
                r.push(42);
                r.push(45);
                r.push(49);
                r.push(13);
                r.push(10);
                proof {
                    assert(r@ =~= spec_encode(value@));
                }
                r
            },
            RespValue::Array(items) => {
                let mut r: Vec<u8> = Vec::new();
                r.push(42);
                let mut digits = u64_to_decimal(items.len() as u64);
                r.append(&mut digits);
                r.push(13);
                r.push(10);
                let ghost models = (value@)->Array_0;
                proof {
                    assert(r@ =~= seq![42u8] + dec_digits(models.len()) + crlf());
                }
                let mut j: usize = 0;
                while j < items.len()
                    invariant
                        0 <= j <= items@.len(),
                        *value == RespValue::Array(*items),
                        models == (model_of(*value))->Array_0,
                        model_of(*value) == RespModel::Array(models),
                        models.len() == items@.len(),
                        forall|i: int|
                            0 <= i < items@.len() ==> models[i] == model_of(#[trigger] items@[i]),
                        r@ =~= seq![42u8] + dec_digits(models.len()) + crlf()
                            + spec_encode_items(models.take(j as int)),
                    decreases items@.len() - j,
                {
                    proof {
                        broadcast use vstd::std_specs::vec::axiom_vec_index_decreases;

                        assert(*value == RespValue::Array(*items));
                        assert(decreases_to!(*value => *items));
                        assert(decreases_to!(*items => items[j as int]));
                    }
                    let mut piece = Self::encode(&items[j]);
                    r.append(&mut piece);
                    proof {
                        lemma_encode_items_take_step(models, j as int);
                    }
                    j = j + 1;
                }
                proof {
                    assert(models.take(j as int) =~= models);
                    assert(r@ =~= spec_encode(value@));
                }
                r
            },
        }
    }

    /// Encodes one bulk payload, consuming the payload buffer.
    fn encode_bulk_payload(body: Vec<u8>) -> (r: Vec<u8>)
        ensures
            r@ == spec_encode_bulk(body@),
    {
        let mut r: Vec<u8> = Vec::new();
        r.push(36);
        let mut digits = u64_to_decimal(body.len() as u64);
        r.append(&mut digits);
        r.push(13);
        r.push(10);
        let ghost b = body@;
        let mut body = body;
        r.append(&mut body);
        r.push(13);
        r.push(10);
        proof {
            assert(r@ =~= spec_encode_bulk(b));
        }
        r
    }
}

/// How a decode attempt can fail: the buffer ends before the value does, or
/// the bytes cannot be a RESP value at all.
#[derive(Debug, PartialEq, Eq, Clone, Copy)]
pub enum DecodeError {
    UnexpectedEof,
    InvalidData,
}

/// The outcome of reading one value off the front of a byte sequence: the
/// value and how many bytes it took, or one of the two failures.
#[verifier::ext_equal]
pub enum SpecDecodeResult {
    Value(RespModel, int),
    NeedMore,
    Invalid,
}

/// The outcome of reading a run of consecutive values: the values and the
/// total bytes they took, or one of the two failures.
#[verifier::ext_equal]
pub enum SpecItemsResult {
    Done(Seq<RespModel>, int),
    NeedMore,
    Invalid,
}

/// True when a CRLF pair sits at index `i` of `s`.
pub open spec fn has_crlf_at(s: Seq<u8>, i: int) -> bool {
    0 <= i && i + 2 <= s.len() && s[i] == 13 && s[i + 1] == 10
}

/// The index of the first CRLF pair in `s`, if any.
pub open spec fn find_crlf(s: Seq<u8>) -> Option<int>
    decreases s.len(),
{
    if s.len() < 2 {
        None
    } else if s[0] == 13 && s[1] == 10 {
        Some(0)
    } else {
        match find_crlf(s.drop_first()) {
            Some(i) => Some(i + 1),
            None => None,
        }
    }
}

/// `find_crlf` returns the position of the first CRLF pair, and `None`
/// exactly when there is no pair.
pub proof fn lemma_find_crlf(s: Seq<u8>)
    ensures
        match find_crlf(s) {
            Some(i) => has_crlf_at(s, i) && (forall|j: int| 0 <= j < i ==> !has_crlf_at(s, j)),
            None => forall|j: int| !has_crlf_at(s, j),
        },
    decreases s.len(),
{
    if s.len() < 2 {
    } else if s[0] == 13 && s[1] == 10 {
    } else {
        lemma_find_crlf(s.drop_first());
        assert forall|j: int| has_crlf_at(s, j) implies j >= 1 && has_crlf_at(
            s.drop_first(),
            j - 1,
        ) by {
            assert(s.drop_first()[j - 1] == s[j]);
            assert(s.drop_first()[j] == s[j + 1]);
        }
        assert forall|j: int| j >= 1 && has_crlf_at(s.drop_first(), j - 1) implies has_crlf_at(
            s,
            j,
        ) by {
            assert(s.drop_first()[j - 1] == s[j]);
            assert(s.drop_first()[j] == s[j + 1]);
        }
    }
}

/// Reads one value off the front of `s`:
/// - `+`, `-`, `:` introduce a CRLF-terminated line (text for the first two,
///   a decimal integer for the third);
/// - `$` introduces a byte count, that many payload bytes, and two trailing
///   bytes, or the null bulk `$-1`;
/// - `*` introduces an element count followed by that many encoded values,
///   or the null array `*-1`;
/// - any other first byte is invalid.
///
/// A buffer that ends before the value does yields `NeedMore`.
pub open spec fn spec_decode(s: Seq<u8>) -> SpecDecodeResult
    decreases s.len(), 0int,
    via spec_decode_decreases
{
    if s.len() == 0 {
        SpecDecodeResult::NeedMore
    } else {
        let rest = s.drop_first();
        if s[0] == 43 || s[0] == 45 {
            match find_crlf(rest) {
                None => SpecDecodeResult::NeedMore,
                Some(i) => {
                    let line = rest.take(i);
                    if valid_utf8(line) {
                        let txt = decode_utf8(line);
                        SpecDecodeResult::Value(
                            if s[0] == 43 {
                                RespModel::SimpleString(txt)
                            } else {
                                RespModel::Error(txt)
                            },
                            3 + i,
                        )
                    } else {
                        SpecDecodeResult::Invalid
                    }
                },
            }
        } else if s[0] == 58 {
            match find_crlf(rest) {
                None => SpecDecodeResult::NeedMore,
                Some(i) => {
                    let line = rest.take(i);
                    if line.len() > 0 && all_digits(line) && digits_val(line) <= u64::MAX {
                        SpecDecodeResult::Value(
                            RespModel::Integer(digits_val(line) as u64),
                            3 + i,
                        )
                    } else {
                        SpecDecodeResult::Invalid
                    }
                },
            }
        } else if s[0] == 36 {
            match find_crlf(rest) {
                None => SpecDecodeResult::NeedMore,
                Some(i) => {
                    let line = rest.take(i);
                    let hdr = 3 + i;
                    if line =~= seq![45u8, 49u8] {
                        SpecDecodeResult::Value(RespModel::Null, hdr)
                    } else if line.len() > 0 && all_digits(line) && digits_val(line)
                        <= u64::MAX {
                        let l = digits_val(line) as int;
                        if s.len() >= hdr + l + 2 {
                            SpecDecodeResult::Value(
                                RespModel::BinaryBulkString(s.subrange(hdr, hdr + l)),
                                hdr + l + 2,
                            )
                        } else {
                            SpecDecodeResult::NeedMore
                        }
                    } else {
                        SpecDecodeResult::Invalid
                    }
                },
            }
        } else if s[0] == 42 {
            match find_crlf(rest) {
                None => SpecDecodeResult::NeedMore,
                Some(i) => {
                    let line = rest.take(i);
                    let hdr = 3 + i;
                    if line =~= seq![45u8, 49u8] {
                        SpecDecodeResult::Value(RespModel::NullArray, hdr)
                    } else if line.len() > 0 && all_digits(line) && digits_val(line)
                        <= u64::MAX {
                        match spec_decode_elems(s.skip(hdr), digits_val(line)) {
                            SpecItemsResult::Done(items, used) => SpecDecodeResult::Value(
                                RespModel::Array(items),
                                hdr + used,
                            ),
                            SpecItemsResult::NeedMore => SpecDecodeResult::NeedMore,
                            SpecItemsResult::Invalid => SpecDecodeResult::Invalid,
                        }
                    } else {
                        SpecDecodeResult::Invalid
                    }
                },
            }
        } else {
            SpecDecodeResult::Invalid
        }
    }
}

/// Reads `n` consecutive values off the front of `s`.
pub open spec fn spec_decode_elems(s: Seq<u8>, n: nat) -> SpecItemsResult
    decreases s.len(), n + 1,
{
    if n == 0 {
        SpecItemsResult::Done(Seq::empty(), 0)
    } else {
        match spec_decode(s) {
            SpecDecodeResult::Value(m, used) => {
                if 1 <= used <= s.len() {
                    match spec_decode_elems(s.skip(used), (n - 1) as nat) {
                        SpecItemsResult::Done(items, more) => SpecItemsResult::Done(
                            seq![m] + items,
                            used + more,
                        ),
                        SpecItemsResult::NeedMore => SpecItemsResult::NeedMore,
                        SpecItemsResult::Invalid => SpecItemsResult::Invalid,
                    }
                } else {
                    SpecItemsResult::Invalid
                }
            },
            SpecDecodeResult::NeedMore => SpecItemsResult::NeedMore,
            SpecDecodeResult::Invalid => SpecItemsResult::Invalid,
        }
    }
}

#[via_fn]
proof fn spec_decode_decreases(s: Seq<u8>) {
    if s.len() > 0 {
        let rest = s.drop_first();
        if s[0] == 42 {
            match find_crlf(rest) {
                Some(i) => {
                    lemma_find_crlf(rest);
                    assert(s.skip(3 + i).len() < s.len());
                },
                None => {},
            }
        }
    }
}

/// Scans for the first CRLF pair at or after `from`.
fn find_crlf_from(input: &[u8], from: usize) -> (r: Option<usize>)
    requires
        from <= input@.len(),
    ensures
        (match r {
            Some(i) => from <= i && i + 2 <= input@.len() && find_crlf(input@.skip(from as int))
                == Some(i - from),
            None => find_crlf(input@.skip(from as int)) is None,
        }),
{
    let ghost t = input@.skip(from as int);
    let mut i: usize = from;
    while i < input.len() && i + 1 < input.len()
        invariant
            from <= i <= input@.len(),
            t == input@.skip(from as int),
            forall|k: int| 0 <= k < i - from ==> !has_crlf_at(t, k),
        decreases input@.len() - i,
    {
        if input[i] == 13 && input[i + 1] == 10 {
            proof {
                assert(t[i - from] == input@[i as int]);
                assert(t[i - from + 1] == input@[i as int + 1]);
                assert(has_crlf_at(t, i - from));
                lemma_find_crlf(t);
            }
            return Some(i);
        }
        proof {
            assert(t[i - from] == input@[i as int]);
            assert(t[i - from + 1] == input@[i as int + 1]);
            assert(!has_crlf_at(t, i - from));
        }
        i = i + 1;
    }
    proof {
        assert forall|k: int| !has_crlf_at(t, k) by {
            if 0 <= k && k + 2 <= t.len() {
                assert(k < i - from);
            }
        }
        lemma_find_crlf(t);
    }
    None
}

impl RespCodec {
    /// Reads one value off the front of `input`, returning it with the
    /// number of bytes it occupied. The buffer ending before the value does
    /// is `UnexpectedEof`; bytes that cannot be a RESP value are
    /// `InvalidData`.
    pub fn decode(input: &[u8]) -> (r: Result<(RespValue, usize), DecodeError>)
        ensures
            (match r {
                Ok((v, used)) => 0 < used <= input@.len() && spec_decode(input@)
                    == SpecDecodeResult::Value(v@, used as int),
                Err(DecodeError::UnexpectedEof) => spec_decode(input@)
                    is NeedMore,
                Err(DecodeError::InvalidData) => spec_decode(input@) is Invalid,
            }),
    {
        proof {
            assert(input@.skip(0) =~= input@);
        }
        Self::decode_at(input, 0)
    }

    /// Reads one value starting at byte `pos` of `input`; on success the
    /// second component is the position just past the value.
    #[verifier::rlimit(50)]
    fn decode_at(input: &[u8], pos: usize) -> (r: Result<(RespValue, usize), DecodeError>)
        requires
            pos <= input@.len(),
        ensures
            (match r {
                Ok((v, end)) => pos < end <= input@.len() && spec_decode(input@.skip(pos as int))
                    == SpecDecodeResult::Value(v@, end - pos),
                Err(DecodeError::UnexpectedEof) => spec_decode(input@.skip(pos as int))
                    is NeedMore,
                Err(DecodeError::InvalidData) => spec_decode(input@.skip(pos as int))
                    is Invalid,
            }),
        decreases input@.len() - pos,
    {
        let ghost t = input@.skip(pos as int);
        if pos == input.len() {
            return Err(DecodeError::UnexpectedEof);
        }
        let tag = input[pos];
        proof {
            assert(t[0] == input@[pos as int]);
            assert(t.drop_first() =~= input@.skip(pos as int + 1));
        }
        let ghost rest = t.drop_first();
        if tag == 43 || tag == 45 {
            match find_crlf_from(input, pos + 1) {
                None => Err(DecodeError::UnexpectedEof),
                Some(cr) => {
                    let ghost i = cr - (pos + 1);
                    let line_slice = vstd::slice::slice_subrange(input, pos + 1, cr);
                    proof {
                        assert(line_slice@ =~= rest.take(i));
                    }
                    let bytes = vstd::slice::slice_to_vec(line_slice);
                    match vec_to_string(bytes) {
                        Some(st) => {
                            let v = if tag == 43 {
                                RespValue::SimpleString(st)
                            } else {
                                RespValue::Error(st)
                            };
                            Ok((v, cr + 2))
                        },
                        None => Err(DecodeError::InvalidData),
                    }
                },
            }
        } else if tag == 58 {
            match find_crlf_from(input, pos + 1) {
                None => Err(DecodeError::UnexpectedEof),
                Some(cr) => {
                    let ghost i = cr - (pos + 1);
                    let line_slice = vstd::slice::slice_subrange(input, pos + 1, cr);
                    proof {
                        assert(line_slice@ =~= rest.take(i));
                    }
                    match parse_u64(line_slice) {
                        Some(n) => Ok((RespValue::Integer(n), cr + 2)),
                        None => Err(DecodeError::InvalidData),
                    }
                },
            }
        } else if tag == 36 {
            match find_crlf_from(input, pos + 1) {
                None => Err(DecodeError::UnexpectedEof),
                Some(cr) => {
                    let ghost i = cr - (pos + 1);
                    let line_slice = vstd::slice::slice_subrange(input, pos + 1, cr);
                    proof {
                        assert(line_slice@ =~= rest.take(i));
                    }
                    if line_slice.len() == 2 && line_slice[0] == 45 && line_slice[1] == 49 {
                        proof {
                            assert(rest.take(i) =~= seq![45u8, 49u8]);
                        }
                        Ok((RespValue::Null, cr + 2))
                    } else {
                        proof {
                            assert(!(rest.take(i) =~= seq![45u8, 49u8]));
                        }
                        match parse_u64(line_slice) {
                            None => Err(DecodeError::InvalidData),
                            Some(l) => {
                                let hdr = cr + 2;
                                let avail = input.len() - hdr;
                                if avail < 2 || ((avail - 2) as u64) < l {
                                    proof {
                                        assert(t.len() < (hdr - pos) + l + 2);
                                    }
                                    Err(DecodeError::UnexpectedEof)
                                } else {
                                    let l_us = l as usize;
                                    let payload = vstd::slice::slice_to_vec(
                                        vstd::slice::slice_subrange(input, hdr, hdr + l_us),
                                    );
                                    proof {
                                        assert(payload@ =~= t.subrange(
                                            hdr - pos,
                                            hdr - pos + l as int,
                                        ));
                                    }
                                    Ok((RespValue::BinaryBulkString(payload), hdr + l_us + 2))
                                }
                            },
                        }
                    }
                },
            }
        } else if tag == 42 {
            match find_crlf_from(input, pos + 1) {
                None => Err(DecodeError::UnexpectedEof),
                Some(cr) => {
                    let ghost i = cr - (pos + 1);
                    let line_slice = vstd::slice::slice_subrange(input, pos + 1, cr);
                    proof {
                        assert(line_slice@ =~= rest.take(i));
                    }
                    if line_slice.len() == 2 && line_slice[0] == 45 && line_slice[1] == 49 {
                        proof {
                            assert(rest.take(i) =~= seq![45u8, 49u8]);
                        }
                        Ok((RespValue::NullArray, cr + 2))
                    } else {
                        proof {
                            assert(!(rest.take(i) =~= seq![45u8, 49u8]));
                        }
                        match parse_u64(line_slice) {
                            None => Err(DecodeError::InvalidData),
                            Some(n) => {
                                proof {
                                    assert(t.skip(3 + i) =~= input@.skip(cr as int + 2));
                                    assert(digits_val(rest.take(i)) == n as nat);
                                }
                                Self::decode_array_elems(input, pos, cr + 2, n)
                            },
                        }
                    }
                },
            }
        } else {
            Err(DecodeError::InvalidData)
        }
    }

    /// Reads the `n` elements of an array whose header ends at `start`;
    /// `pos` is where the array's own encoding began.
    fn decode_array_elems(input: &[u8], pos: usize, start: usize, n: u64) -> (r: Result<
        (RespValue, usize),
        DecodeError,
    >)
        requires
            pos < start <= input@.len(),
            (spec_decode(input@.skip(pos as int)) == match spec_decode_elems(
                input@.skip(start as int),
                n as nat,
            ) {
                SpecItemsResult::Done(items, used) => SpecDecodeResult::Value(
                    RespModel::Array(items),
                    (start - pos) + used,
                ),
                SpecItemsResult::NeedMore => SpecDecodeResult::NeedMore,
                SpecItemsResult::Invalid => SpecDecodeResult::Invalid,
            }),
        ensures
            (match r {
                Ok((v, end)) => pos < end <= input@.len() && spec_decode(input@.skip(pos as int))
                    == SpecDecodeResult::Value(v@, end - pos),
                Err(DecodeError::UnexpectedEof) => spec_decode(input@.skip(pos as int))
                    is NeedMore,
                Err(DecodeError::InvalidData) => spec_decode(input@.skip(pos as int))
                    is Invalid,
            }),
        decreases input@.len() - pos, 0int,
    {
        let mut elems: Vec<RespValue> = Vec::new();
        let mut cur: usize = start;
        let mut k: u64 = 0;
        proof {
            assert(models_of(elems@) =~= Seq::<RespModel>::empty());
            let r0 = spec_decode_elems(input@.skip(start as int), n as nat);
            if r0 is Done {
                assert(models_of(elems@) + r0->Done_0 =~= r0->Done_0);
            }
        }
        while k < n
            invariant
                pos < start <= cur <= input@.len(),
                0 <= k <= n,
                elems@.len() == k,
                (spec_decode(input@.skip(pos as int)) == match spec_decode_elems(
                    input@.skip(start as int),
                    n as nat,
                ) {
                    SpecItemsResult::Done(items, used) => SpecDecodeResult::Value(
                        RespModel::Array(items),
                        (start - pos) + used,
                    ),
                    SpecItemsResult::NeedMore => SpecDecodeResult::NeedMore,
                    SpecItemsResult::Invalid => SpecDecodeResult::Invalid,
                }),
                (spec_decode_elems(input@.skip(start as int), n as nat)
                    == match spec_decode_elems(input@.skip(cur as int), (n - k) as nat) {
                    SpecItemsResult::Done(items, used) => SpecItemsResult::Done(
                        models_of(elems@) + items,
                        (cur - start) + used,
                    ),
                    SpecItemsResult::NeedMore => SpecItemsResult::NeedMore,
                    SpecItemsResult::Invalid => SpecItemsResult::Invalid,
                }),
            decreases n - k,
        {
            match Self::decode_at(input, cur) {
                Err(e) => {
                    return Err(e);
                },
                Ok((v, end)) => {
                    proof {
                        let scur = input@.skip(cur as int);
                        let send = input@.skip(end as int);
                        assert(scur.len() == input@.len() - cur);
                        assert(scur.skip(end - cur) =~= send);
                        let r2 = spec_decode_elems(send, (n - k - 1) as nat);
                        if r2 is Done {
                            assert(models_of(elems@.push(v)) =~= models_of(elems@).push(
                                model_of(v),
                            ));
                            assert(models_of(elems@) + (seq![model_of(v)] + r2->Done_0)
                                =~= models_of(elems@.push(v)) + r2->Done_0);
                        }
                    }
                    elems.push(v);
                    cur = end;
                    k = k + 1;
                },
            }
        }
        proof {
            assert(spec_decode_elems(input@.skip(cur as int), 0nat) == SpecItemsResult::Done(
                Seq::<RespModel>::empty(),
                0int,
            ));
            assert(models_of(elems@) + Seq::<RespModel>::empty() =~= models_of(elems@));
            lemma_model_of_array(elems);
        }
        let v = RespValue::Array(elems);
        Ok((v, cur))
    }
}

/// True when no character of `s` is CR or LF, so that `s` can stand on a
/// single protocol line.
pub open spec fn crlf_free(s: Seq<char>) -> bool {
    forall|i: int| 0 <= i < s.len() ==> s[i] != '\r' && s[i] != '\n'
}

/// True when no byte of `b` is CR or LF.
pub open spec fn clean_bytes(b: Seq<u8>) -> bool {
    forall|i: int| 0 <= i < b.len() ==> b[i] != 13 && b[i] != 10
}

/// True when the encoding of `m` can be read back in full: simple and error
/// lines hold no CR or LF, and every length fits the decoder's counters.
pub open spec fn wire_safe(m: RespModel) -> bool
    decreases m,
    via wire_safe_decreases
{
    match m {
        RespModel::SimpleString(s) => crlf_free(s),
        RespModel::Error(s) => crlf_free(s),
        RespModel::Integer(_) => true,
        RespModel::BulkString(s) => encode_utf8(s).len() <= u64::MAX,
        RespModel::BinaryBulkString(b) => b.len() <= u64::MAX,
        RespModel::Null => true,
        RespModel::NullArray => true,
        RespModel::Array(items) => items.len() <= u64::MAX && (forall|i: int|
            0 <= i < items.len() ==> wire_safe(#[trigger] items[i])),
    }
}

/// True when `m` holds no `BulkString` anywhere, so that decoding its
/// encoding gives `m` itself back rather than a binary twin.
pub open spec fn bulk_free(m: RespModel) -> bool
    decreases m,
    via bulk_free_decreases
{
    match m {
        RespModel::BulkString(_) => false,
        RespModel::Array(items) => forall|i: int|
            0 <= i < items.len() ==> bulk_free(#[trigger] items[i]),
        _ => true,
    }
}

/// The value the decoder hands back for the encoding of `m`: every
/// `BulkString` becomes the `BinaryBulkString` of its UTF-8 bytes, and
/// everything else is unchanged.
pub open spec fn canon(m: RespModel) -> RespModel
    decreases m,
    via canon_decreases
{
    match m {
        RespModel::BulkString(s) => RespModel::BinaryBulkString(encode_utf8(s)),
        RespModel::Array(items) => RespModel::Array(canon_items(items)),
        _ => m,
    }
}

/// `canon` applied to each element.
pub open spec fn canon_items(items: Seq<RespModel>) -> Seq<RespModel>
    decreases items,
    via canon_items_decreases
{
    Seq::new(
        items.len(),
        |i: int|
            if 0 <= i < items.len() {
                canon(items[i])
            } else {
                RespModel::Null
            },
    )
}

#[via_fn]
proof fn canon_items_decreases(items: Seq<RespModel>) {
    broadcast use vstd::seq::axiom_seq_index_decreases;

    assert forall|i: int| 0 <= i < items.len() implies #[trigger] (decreases_to!(
        items => items[i]
    )) by {
        assert(decreases_to!(items => items[i]));
    }
}

#[via_fn]
proof fn wire_safe_decreases(m: RespModel) {
    broadcast use vstd::seq::axiom_seq_index_decreases;

    match m {
        RespModel::Array(items) => {
            assert(decreases_to!(m => items));
        },
        _ => {},
    }
}

#[via_fn]
proof fn bulk_free_decreases(m: RespModel) {
    broadcast use vstd::seq::axiom_seq_index_decreases;

    match m {
        RespModel::Array(items) => {
            assert(decreases_to!(m => items));
        },
        _ => {},
    }
}

#[via_fn]
proof fn canon_decreases(m: RespModel) {
    broadcast use vstd::seq::axiom_seq_index_decreases;

    match m {
        RespModel::Array(items) => {
            assert(decreases_to!(m => items));
        },
        _ => {},
    }
}

/// The UTF-8 bytes of a line without CR or LF hold no CR or LF byte.
proof fn lemma_encode_utf8_clean(s: Seq<char>)
    requires
        crlf_free(s),
    ensures
        clean_bytes(encode_utf8(s)),
    decreases s.len(),
{
    if s.len() > 0 {
        let c = s[0] as u32;
        assert('\r' as u32 == 13 && '\n' as u32 == 10);
        vstd::utf8::char_is_scalar(s[0]);
        assert(c != 13 && c != 10) by {
            vstd::utf8::char_u32_cast(s[0], c);
        }
        assert(clean_bytes(vstd::utf8::encode_scalar(c))) by {
            lemma_encode_scalar_clean(c);
        }
        assert(crlf_free(s.drop_first()));
        lemma_encode_utf8_clean(s.drop_first());
        let a = vstd::utf8::encode_scalar(c);
        let b = encode_utf8(s.drop_first());
        assert forall|i: int| 0 <= i < (a + b).len() implies (a + b)[i] != 13 && (a + b)[i]
            != 10 by {
            if i < a.len() {
                assert((a + b)[i] == a[i]);
            } else {
                assert((a + b)[i] == b[i - a.len()]);
            }
        }
    }
}

/// The UTF-8 encoding of one scalar other than CR and LF holds no CR or LF
/// byte.
proof fn lemma_encode_scalar_clean(c: u32)
    requires
        vstd::utf8::is_scalar(c),
        c != 13 && c != 10,
    ensures
        clean_bytes(vstd::utf8::encode_scalar(c)),
{
    if vstd::utf8::has_width_1_encoding(c) {
        assert((c & 0x7F) as u8 != 13 && (c & 0x7F) as u8 != 10) by (bit_vector)
            requires
                c <= 0x7F && c != 13 && c != 10,
        ;
    } else {
        assert((0xC0 | ((c >> 6) & 0x1F) as u8) >= 0x80) by (bit_vector);
        assert((0xE0 | ((c >> 12) & 0x0F) as u8) >= 0x80) by (bit_vector);
        assert((0xF0 | ((c >> 18) & 0x7) as u8) >= 0x80) by (bit_vector);
        assert((0x80 | (c & 0x3F) as u8) >= 0x80) by (bit_vector);
        assert((0x80 | ((c >> 6) & 0x3F) as u8) >= 0x80) by (bit_vector);
        assert((0x80 | ((c >> 12) & 0x3F) as u8) >= 0x80) by (bit_vector);
    }
}

/// Decimal digit bytes hold no CR or LF.
proof fn lemma_dec_digits_clean(n: nat)
    ensures
        clean_bytes(dec_digits(n)),
        dec_digits(n).len() >= 1,
        !(dec_digits(n) =~= seq![45u8, 49u8]),
        all_digits(dec_digits(n)),
{
    lemma_dec_digits_are_digits(n);
    if dec_digits(n).len() == 2 {
        assert(is_digit(dec_digits(n)[0]));
        assert(dec_digits(n)[0] != 45);
    }
}

/// The first CRLF pair of a clean line followed by CRLF sits exactly at the
/// end of the line.
proof fn lemma_find_crlf_after_clean(line: Seq<u8>, tail: Seq<u8>)
    requires
        clean_bytes(line),
        tail.len() >= 2,
        tail[0] == 13,
        tail[1] == 10,
    ensures
        find_crlf(line + tail) == Some(line.len() as int),
        (line + tail).take(line.len() as int) == line,
{
    let s = line + tail;
    assert(s[line.len() as int] == tail[0]);
    assert(s[line.len() as int + 1] == tail[1]);
    assert(has_crlf_at(s, line.len() as int));
    lemma_find_crlf(s);
    match find_crlf(s) {
        None => {
            assert(false);
        },
        Some(k) => {
            if k < line.len() {
                assert(s[k] == line[k]);
                assert(!has_crlf_at(s, k));
                assert(false);
            }
            if k > line.len() {
                assert(!has_crlf_at(s, line.len() as int));
                assert(false);
            }
        },
    }
    assert(s.take(line.len() as int) =~= line);
}

/// Every encoding starts with its tag byte, so it is never empty.
proof fn lemma_spec_encode_nonempty(m: RespModel)
    ensures
        spec_encode(m).len() >= 1,
{
}

/// Reading back the encoding of a wire-safe value yields its canonical
/// form and consumes exactly the encoding, whatever bytes follow it.
pub proof fn lemma_decode_of_encode(m: RespModel, rest: Seq<u8>)
    requires
        wire_safe(m),
    ensures
        spec_decode(spec_encode(m) + rest) == SpecDecodeResult::Value(
            canon(m),
            spec_encode(m).len() as int,
        ),
    decreases m,
{
    broadcast use vstd::utf8::encode_utf8_valid_utf8;
    broadcast use vstd::utf8::encode_utf8_decode_utf8;

    let s = spec_encode(m) + rest;
    match m {
        RespModel::SimpleString(txt) => {
            let body = encode_utf8(txt);
            assert(s[0] == 43);
            assert(s.drop_first() =~= body + (crlf() + rest));
            lemma_encode_utf8_clean(txt);
            lemma_find_crlf_after_clean(body, crlf() + rest);
            assert(spec_decode(s) == SpecDecodeResult::Value(
                RespModel::SimpleString(txt),
                3 + body.len() as int,
            ));
        },
        RespModel::Error(txt) => {
            let body = encode_utf8(txt);
            assert(s[0] == 45);
            assert(s.drop_first() =~= body + (crlf() + rest));
            lemma_encode_utf8_clean(txt);
            lemma_find_crlf_after_clean(body, crlf() + rest);
            assert(spec_decode(s) == SpecDecodeResult::Value(
                RespModel::Error(txt),
                3 + body.len() as int,
            ));
        },
        RespModel::Integer(n) => {
            let body = dec_digits(n as nat);
            assert(s[0] == 58);
            assert(s.drop_first() =~= body + (crlf() + rest));
            lemma_dec_digits_clean(n as nat);
            lemma_find_crlf_after_clean(body, crlf() + rest);
            lemma_dec_digits_val(n as nat);
            assert(spec_decode(s) == SpecDecodeResult::Value(
                RespModel::Integer(n),
                3 + body.len() as int,
            ));
        },
        RespModel::BulkString(txt) => {
            lemma_decode_of_encode_bulk(encode_utf8(txt), rest);
        },
        RespModel::BinaryBulkString(b) => {
            lemma_decode_of_encode_bulk(b, rest);
        },
        RespModel::Null => {
            assert(s[0] == 36);
            assert(s.drop_first() =~= seq![45u8, 49u8] + (crlf() + rest));
            assert(clean_bytes(seq![45u8, 49u8]));
            lemma_find_crlf_after_clean(seq![45u8, 49u8], crlf() + rest);
            assert(spec_decode(s) == SpecDecodeResult::Value(RespModel::Null, 5));
        },
        RespModel::NullArray => {
            assert(s[0] == 42);
            assert(s.drop_first() =~= seq![45u8, 49u8] + (crlf() + rest));
            assert(clean_bytes(seq![45u8, 49u8]));
            lemma_find_crlf_after_clean(seq![45u8, 49u8], crlf() + rest);
            assert(spec_decode(s) == SpecDecodeResult::Value(RespModel::NullArray, 5));
        },
        RespModel::Array(items) => {
            let dd = dec_digits(items.len());
            let body = spec_encode_items(items);
            assert(s[0] == 42);
            assert(s.drop_first() =~= dd + (crlf() + (body + rest)));
            lemma_dec_digits_clean(items.len());
            lemma_find_crlf_after_clean(dd, crlf() + (body + rest));
            lemma_dec_digits_val(items.len());
            let hdr = 3 + dd.len() as int;
            assert(s.skip(hdr) =~= body + rest);
            lemma_decode_elems_of_encode(items, rest);
            assert(spec_decode(s) == SpecDecodeResult::Value(
                RespModel::Array(canon_items(items)),
                hdr + body.len(),
            ));
            assert(canon(m) == RespModel::Array(canon_items(items)));
        },
    }
}

/// The bulk-payload case of `lemma_decode_of_encode`: reading back
/// `$<len>CRLF<payload>CRLF` yields the binary bulk string of the payload.
proof fn lemma_decode_of_encode_bulk(b: Seq<u8>, rest: Seq<u8>)
    requires
        b.len() <= u64::MAX,
    ensures
        spec_decode(spec_encode_bulk(b) + rest) == SpecDecodeResult::Value(
            RespModel::BinaryBulkString(b),
            spec_encode_bulk(b).len() as int,
        ),
{
    let s = spec_encode_bulk(b) + rest;
    let dd = dec_digits(b.len());
    assert(s[0] == 36);
    assert(s.drop_first() =~= dd + (crlf() + (b + (crlf() + rest))));
    lemma_dec_digits_clean(b.len());
    lemma_find_crlf_after_clean(dd, crlf() + (b + (crlf() + rest)));
    lemma_dec_digits_val(b.len());
    let hdr = 3 + dd.len() as int;
    assert(s.len() == hdr + b.len() + 2 + rest.len());
    assert(s.subrange(hdr, hdr + b.len() as int) =~= b);
    assert(spec_decode(s) == SpecDecodeResult::Value(
        RespModel::BinaryBulkString(b),
        hdr + b.len() + 2,
    ));
}

/// Reading back the concatenated encodings of `items` yields their
/// canonical forms, consuming exactly those encodings.
proof fn lemma_decode_elems_of_encode(items: Seq<RespModel>, rest: Seq<u8>)
    requires
        forall|i: int| 0 <= i < items.len() ==> wire_safe(#[trigger] items[i]),
    ensures
        spec_decode_elems(spec_encode_items(items) + rest, items.len()) == SpecItemsResult::Done(
            canon_items(items),
            spec_encode_items(items).len() as int,
        ),
    decreases items,
{
    broadcast use vstd::seq::axiom_seq_index_decreases;
    broadcast use vstd::seq::axiom_seq_subrange_decreases;

    let s = spec_encode_items(items) + rest;
    if items.len() == 0 {
        assert(canon_items(items) =~= Seq::<RespModel>::empty());
        assert(spec_decode_elems(s, 0) == SpecItemsResult::Done(Seq::<RespModel>::empty(), 0int));
    } else {
        let e0 = spec_encode(items[0]);
        let tail_enc = spec_encode_items(items.drop_first());
        assert(s =~= e0 + (tail_enc + rest));
        assert(decreases_to!(items => items[0]));
        lemma_decode_of_encode(items[0], tail_enc + rest);
        lemma_spec_encode_nonempty(items[0]);
        assert(spec_decode(s) == SpecDecodeResult::Value(canon(items[0]), e0.len() as int));
        assert(s.skip(e0.len() as int) =~= tail_enc + rest);
        assert(items.drop_first() == items.subrange(1, items.len() as int));
        assert(decreases_to!(items => items.subrange(1, items.len() as int)));
        lemma_decode_elems_of_encode(items.drop_first(), rest);
        assert(canon_items(items) =~= seq![canon(items[0])] + canon_items(items.drop_first()));
        assert(spec_decode_elems(s, items.len()) == SpecItemsResult::Done(
            canon_items(items),
            (e0.len() + tail_enc.len()) as int,
        ));
    }
}

/// A wire-safe value with no `BulkString` inside is its own canonical form.
pub proof fn lemma_canon_identity(m: RespModel)
    requires
        bulk_free(m),
    ensures
        canon(m) == m,
    decreases m,
{
    broadcast use vstd::seq::axiom_seq_index_decreases;

    match m {
        RespModel::Array(items) => {
            assert(decreases_to!(m => items));
            assert forall|i: int| 0 <= i < items.len() implies canon(items[i]) == items[i] by {
                assert(decreases_to!(items => items[i]));
                lemma_canon_identity(items[i]);
            }
            assert(canon_items(items) =~= items);
        },
        _ => {},
    }
}

/// Decoding the encoding of a value gives the value itself back, as long as
/// its simple and error lines hold no CR or LF, its sizes fit the decoder's
/// counters, and no `BulkString` occurs inside (a `BulkString` comes back as
/// the `BinaryBulkString` of its bytes). Arrays of simple strings, errors,
/// integers, binary bulk strings, nulls, and nested such arrays all qualify,
/// whatever bytes their payloads hold.
pub proof fn lemma_codec_round_trip(m: RespModel)
    requires
        wire_safe(m),
        bulk_free(m),
    ensures
        spec_decode(spec_encode(m)) == SpecDecodeResult::Value(m, spec_encode(m).len() as int),
{
    lemma_decode_of_encode(m, Seq::empty());
    assert(spec_encode(m) + Seq::<u8>::empty() =~= spec_encode(m));
    lemma_canon_identity(m);
}

/// Decoding the encoding of a `BulkString` gives the `BinaryBulkString` of
/// its UTF-8 bytes: the wire keeps one canonical bulk form.
pub proof fn lemma_bulk_canonicalization(s: Seq<char>)
    requires
        encode_utf8(s).len() <= u64::MAX,
    ensures
        spec_decode(spec_encode(RespModel::BulkString(s))) == SpecDecodeResult::Value(
            RespModel::BinaryBulkString(encode_utf8(s)),
            spec_encode(RespModel::BulkString(s)).len() as int,
        ),
{
    lemma_decode_of_encode(RespModel::BulkString(s), Seq::empty());
    assert(spec_encode(RespModel::BulkString(s)) + Seq::<u8>::empty() =~= spec_encode(
        RespModel::BulkString(s),
    ));
}

/// The null bulk encodes to `$-1` CRLF, the null array to `*-1` CRLF, and
/// each decodes back to itself.
pub proof fn lemma_null_forms()
    ensures
        spec_encode(RespModel::Null) == seq![36u8, 45u8, 49u8, 13u8, 10u8],
        spec_encode(RespModel::NullArray) == seq![42u8, 45u8, 49u8, 13u8, 10u8],
        spec_decode(spec_encode(RespModel::Null)) == SpecDecodeResult::Value(RespModel::Null, 5int),
        spec_decode(spec_encode(RespModel::NullArray)) == SpecDecodeResult::Value(
            RespModel::NullArray,
            5int,
        ),
{
    assert(spec_encode(RespModel::Null) =~= seq![36u8, 45u8, 49u8, 13u8, 10u8]);
    assert(spec_encode(RespModel::NullArray) =~= seq![42u8, 45u8, 49u8, 13u8, 10u8]);
    lemma_codec_round_trip(RespModel::Null);
    lemma_codec_round_trip(RespModel::NullArray);
}

/// A binary bulk string round-trips losslessly whatever bytes it holds,
/// CRLF pairs included.
pub proof fn lemma_binary_round_trip(b: Seq<u8>)
    requires
        b.len() <= u64::MAX,
    ensures
        spec_decode(spec_encode(RespModel::BinaryBulkString(b))) == SpecDecodeResult::Value(
            RespModel::BinaryBulkString(b),
            spec_encode(RespModel::BinaryBulkString(b)).len() as int,
        ),
{
    lemma_codec_round_trip(RespModel::BinaryBulkString(b));
}

/// Extending an item-sequence prefix by one item appends that item's wire
/// form.
proof fn lemma_encode_items_take_step(items: Seq<RespModel>, j: int)
    requires
        0 <= j < items.len(),
    ensures
        spec_encode_items(items.take(j + 1)) == spec_encode_items(items.take(j)) + spec_encode(
            items[j],
        ),
    decreases j,
{
    if j == 0 {
        assert(items.take(1) =~= seq![items[0]]);
        assert(items.take(1).drop_first() =~= Seq::<RespModel>::empty());
        assert(items.take(0) =~= Seq::<RespModel>::empty());
        assert(spec_encode_items(Seq::<RespModel>::empty()) =~= Seq::<u8>::empty());
        assert(items.take(1)[0] == items[0]);
        assert(spec_encode_items(items.take(1)) =~= spec_encode(items[0]));
        assert(spec_encode_items(items.take(0)) + spec_encode(items[0]) =~= spec_encode(items[0]));
    } else {
        lemma_encode_items_take_step(items.drop_first(), j - 1);
        assert(items.take(j + 1).drop_first() =~= items.drop_first().take(j));
        assert(items.take(j).drop_first() =~= items.drop_first().take(j - 1));
        assert(items.take(j + 1)[0] == items[0]);
        assert(items.take(j)[0] == items[0]);
        assert(items.drop_first()[j - 1] == items[j]);
        assert(spec_encode_items(items.take(j + 1)) == spec_encode(items[0]) + spec_encode_items(
            items.drop_first().take(j),
        ));
        assert(spec_encode(items[0]) + (spec_encode_items(items.drop_first().take(j - 1))
            + spec_encode(items[j])) =~= (spec_encode(items[0]) + spec_encode_items(
            items.drop_first().take(j - 1),
        )) + spec_encode(items[j]));
    }
}

} // verus!
