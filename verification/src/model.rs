//! The RESP value shapes, as carried on the wire and as reasoned about.
use vstd::prelude::*;

verus! {

/// The ghost shape of a RESP value: strings by their characters, bulk
/// payloads by their bytes, arrays as sequences of nested shapes.
#[verifier::ext_equal]
pub enum RespModel {
    SimpleString(Seq<char>),
    Integer(u64),
    BinaryBulkString(Seq<u8>),
    BulkString(Seq<char>),
    Error(Seq<char>),
    Null,
    NullArray,
    Array(Seq<RespModel>),
}

/// A RESP value, the tagged sum over the eight wire shapes.
///
/// `BulkString` carries UTF-8 text and `BinaryBulkString` an opaque byte
/// sequence; both encode to the same wire form, and the decoder always
/// yields the binary variant so that payloads survive unchanged.
#[derive(Debug, PartialEq, Eq)]
pub enum RespValue {
    SimpleString(String),
    Integer(u64),
    BinaryBulkString(Vec<u8>),
    BulkString(String),
    Error(String),
    Null,
    NullArray,
    Array(Vec<RespValue>),
}

/// The ghost shape of `v`, with every nested value taken to its shape.
pub open spec fn model_of(v: RespValue) -> RespModel
    decreases v,
    via model_of_decreases
{
    match v {
        RespValue::SimpleString(s) => RespModel::SimpleString(s@),
        RespValue::Integer(i) => RespModel::Integer(i),
        RespValue::BinaryBulkString(b) => RespModel::BinaryBulkString(b@),
        RespValue::BulkString(s) => RespModel::BulkString(s@),
        RespValue::Error(s) => RespModel::Error(s@),
        RespValue::Null => RespModel::Null,
        RespValue::NullArray => RespModel::NullArray,
        RespValue::Array(items) => RespModel::Array(
            Seq::new(
                items@.len(),
                |i: int|
                    if 0 <= i < items@.len() {
                        model_of(items@[i])
                    } else {
                        RespModel::Null
                    },
            ),
        ),
    }
}

/// The ghost shapes of a sequence of values, element by element.
pub open spec fn models_of(items: Seq<RespValue>) -> Seq<RespModel> {
    Seq::new(
        items.len(),
        |i: int|
            if 0 <= i < items.len() {
                model_of(items[i])
            } else {
                RespModel::Null
            },
    )
}

/// The shape of an array value is the array of its elements' shapes.
pub proof fn lemma_model_of_array(items: Vec<RespValue>)
    ensures
        model_of(RespValue::Array(items)) == RespModel::Array(models_of(items@)),
{
    assert((model_of(RespValue::Array(items)))->Array_0 =~= models_of(items@));
}

#[via_fn]
proof fn model_of_decreases(v: RespValue) {
    broadcast use vstd::std_specs::vec::axiom_vec_index_decreases;

    match v {
        RespValue::Array(items) => {
            assert forall|i: int| 0 <= i < items@.len() implies #[trigger] (decreases_to!(
                v => items@[i]
            )) by {
                assert(decreases_to!(v => items));
                assert(decreases_to!(items => items[i]));
            }
        },
        _ => {},
    }
}

impl View for RespValue {
    type V = RespModel;

    open spec fn view(&self) -> RespModel {
        model_of(*self)
    }
}

impl RespValue {
    /// A deep copy with the same shape.
    pub fn duplicate(&self) -> (r: RespValue)
        ensures
            r@ == self@,
    {
        duplicate_value(self)
    }
}

/// A deep copy with the same shape.
fn duplicate_value(v: &RespValue) -> (r: RespValue)
    ensures
        r@ == v@,
    decreases *v,
{
    match v {
        RespValue::SimpleString(s) => RespValue::SimpleString(crate::text::clone_string(s)),
        RespValue::Integer(i) => RespValue::Integer(*i),
        RespValue::BinaryBulkString(b) => RespValue::BinaryBulkString(
            crate::text::copy_bytes(b),
        ),
        RespValue::BulkString(s) => RespValue::BulkString(crate::text::clone_string(s)),
        RespValue::Error(s) => RespValue::Error(crate::text::clone_string(s)),
        RespValue::Null => RespValue::Null,
        RespValue::NullArray => RespValue::NullArray,
        RespValue::Array(items) => {
            let mut out: Vec<RespValue> = Vec::new();
            let mut j: usize = 0;
            while j < items.len()
                invariant
                    *v == RespValue::Array(*items),
                    0 <= j <= items@.len(),
                    out@.len() == j,
                    forall|i: int| 0 <= i < j ==> #[trigger] out@[i]@ == items@[i]@,
                decreases items@.len() - j,
            {
                proof {
                    broadcast use vstd::std_specs::vec::axiom_vec_index_decreases;

                    assert(*v == RespValue::Array(*items));
                    assert(v->Array_0 == *items);
                    assert(decreases_to!(*v => v->Array_0));
                    assert(decreases_to!(*v => *items));
                    assert(decreases_to!(*items => items[j as int]));
                }
                let copied = duplicate_value(&items[j]);
                out.push(copied);
                j = j + 1;
            }
            let ghost outv = out@;
            let r = RespValue::Array(out);
            proof {
                lemma_model_of_array(r->Array_0);
                lemma_model_of_array(*items);
                assert forall|i: int| 0 <= i < outv.len() implies models_of(outv)[i]
                    == models_of(items@)[i] by {
                    assert(outv[i]@ == items@[i]@);
                    assert(models_of(outv)[i] == model_of(outv[i]));
                    assert(models_of(items@)[i] == model_of(items@[i]));
                }
                assert(models_of(outv) =~= models_of(items@));
                assert(r->Array_0@ == outv);
            }
            r
        },
    }
}

} // verus!
