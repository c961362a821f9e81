//! The codec: bytes of one line to a data point, and back.
use crate::error::{DecodeError, EncodeError};
use crate::laws::{has_key, law_decoded_fields_nonempty};
use crate::parser::{parse, parse_spec, result_view};
use crate::point::{DatapointView, InfluxDatapoint};
use crate::serializer::{has_non_scalar, is_line_of};
use vstd::prelude::*;
use vstd::string::StringSliceAdditionalSpecFns;
use vstd::utf8::{decode_utf8, valid_utf8};

verus! {

/// The data point that the bytes of a line denote, or why they denote none.
pub open spec fn decode_spec(b: Seq<u8>) -> Result<DatapointView, DecodeError> {
    if valid_utf8(b) {
        parse_spec(decode_utf8(b))
    } else {
        Err(DecodeError::InvalidUtf8)
    }
}

/// `b` is valid UTF-8 and holds the line of `p`, with its tags and fields in
/// some order.
pub open spec fn encodes(b: Seq<u8>, p: DatapointView) -> bool {
    valid_utf8(b) && is_line_of(decode_utf8(b), p)
}

/// Relies on `std::str::from_utf8`: it accepts exactly the valid UTF-8
/// slices, and the text it returns has those bytes.
#[verifier::external_body]
fn utf8_text(b: &[u8]) -> (r: Option<&str>)
    ensures
        r is Some <==> valid_utf8(b@),
        r matches Some(s) ==> s.spec_bytes() == b@,
{
    std::str::from_utf8(b).ok()
}

/// The line protocol codec. It holds no state.
#[derive(Clone, Copy, Debug)]
pub struct Influx {}

impl Influx {
    /// Decodes one line; trailing newlines are ignored.
    pub fn decode(&self, data: Vec<u8>) -> (r: Result<InfluxDatapoint, DecodeError>)
        ensures
            result_view(r) == decode_spec(data@),
            r matches Ok(p) ==> has_key(p@.fields),
    {
        proof {
            law_decoded_fields_nonempty(data@);
        }
        match utf8_text(data.as_slice()) {
            None => Err(DecodeError::InvalidUtf8),
            Some(s) => {
                proof {
                    vstd::utf8::encode_utf8_decode_utf8(s@);
                }
                parse(s)
            },
        }
    }

    /// Encodes a data point as one line, without a trailing newline.
    pub fn encode(&self, data: &InfluxDatapoint) -> (r: Result<Vec<u8>, EncodeError>)
        ensures
            r is Err <==> has_non_scalar(data@.fields),
            r matches Ok(b) ==> encodes(b@, data@),
    {
        data.try_to_bytes()
    }
}

} // verus!
