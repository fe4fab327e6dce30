//! The two places where this crate leans on outside code: the 32-bit float
//! literal scanner, and UTF-8 decoding of the configuration bytes.
use crate::grammar::float_scan;
use vstd::prelude::*;
use vstd::utf8::{decode_utf8, valid_utf8};

verus! {

/// Relies on nom's `number::complete::float`: it recognises one float
/// literal at the head of the suffix `i[pos..]` and returns its `f32` value,
/// or fails without consuming anything.  The scan is a pure function of the
/// bytes, named `float_scan` in specifications; on success it consumes at
/// least one byte and no more than the suffix holds.
#[verifier::external_body]
pub(crate) fn scan_float(i: &[u8], pos: usize) -> (r: Option<(u32, usize)>)
    requires
        pos <= i@.len(),
    ensures
        match r {
            Some((bits, n)) => {
                &&& float_scan(i@.subrange(pos as int, i@.len() as int)) == Some(
                    (bits, n as nat),
                )
                &&& 1 <= n
                &&& pos + n <= i@.len()
            },
            None => float_scan(i@.subrange(pos as int, i@.len() as int)) is None,
        },
{
    match nom::number::complete::float::<&[u8], nom::error::Error<&[u8]>>(&i[pos..]) {
        Ok((rest, value)) => Some((value.to_bits(), i.len() - pos - rest.len())),
        Err(_) => None,
    }
}

/// Relies on `String::from_utf8`: it succeeds exactly on valid UTF-8 and
/// returns the string spelling those same bytes.
#[verifier::external_body]
pub(crate) fn bytes_to_string(b: Vec<u8>) -> (r: Option<String>)
    ensures
        match r {
            Some(s) => valid_utf8(b@) && s@ == decode_utf8(b@),
            None => !valid_utf8(b@),
        },
{
    String::from_utf8(b).ok()
}

} // verus!
