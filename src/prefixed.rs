//! Byte strings framed by their length: a 32-bit varint holding the length,
//! then the bytes themselves.

use crate::fixed::append_bytes;
use crate::varint::{get_varint32, put_varint32, varint32_decoded, varint32_round_trip, varint_bytes};
use vstd::prelude::*;

verus! {

/// The framing of the byte string `s`.
pub open spec fn prefixed_bytes(s: Seq<u8>) -> Seq<u8> {
    varint_bytes(s.len()) + s
}

/// What reading a length-prefixed byte string from the front of `s` gives:
/// the input after it and the string; `None` when no length can be read or
/// fewer bytes than it names follow.
pub open spec fn prefixed_decoded(s: Seq<u8>) -> Option<(Seq<u8>, Seq<u8>)> {
    match varint32_decoded(s) {
        Some((after, len)) => if len <= after.len() {
            Some((after.subrange(len as int, after.len() as int), after.subrange(0, len as int)))
        } else {
            None
        },
        None => None,
    }
}

/// Reading back a framed byte string, whatever follows it, gives the string
/// and leaves exactly what followed: the length prefix and the bytes are
/// consumed, no more and no fewer.
pub proof fn prefixed_round_trip(s: Seq<u8>, rest: Seq<u8>)
    requires
        s.len() <= u32::MAX,
    ensures
        prefixed_decoded(prefixed_bytes(s) + rest) == Some((rest, s)),
{
    let len = s.len() as u32;
    varint32_round_trip(len, s + rest);
    assert(prefixed_bytes(s) + rest =~= varint_bytes(len as nat) + (s + rest));
    assert((s + rest).subrange(0, s.len() as int) =~= s);
    assert((s + rest).subrange(s.len() as int, (s + rest).len() as int) =~= rest);
}

/// Appends the length of `value`, as a 32-bit varint, then `value` itself,
/// to `dst`.
pub fn put_length_prefixed_slice(dst: &mut Vec<u8>, value: &[u8])
    requires
        value@.len() <= u32::MAX,
    ensures
        final(dst)@ == old(dst)@ + prefixed_bytes(value@),
{
    put_varint32(dst, value.len() as u32);
    append_bytes(dst, value);
    assert(dst@ =~= old(dst)@ + prefixed_bytes(value@));
}

/// Reads a length-prefixed byte string from the front of `input`: the input
/// after it and the string, or `None` when no length can be read or fewer
/// bytes than it names follow.
pub fn get_length_prefixed_slice(input: &[u8]) -> (r: Option<(&[u8], &[u8])>)
    ensures
        match r {
            Some((rest, body)) => prefixed_decoded(input@) == Some((rest@, body@)),
            None => prefixed_decoded(input@) is None,
        },
{
    match get_varint32(input) {
        Some((remain, len)) => {
            let len = len as usize;
            if remain.len() >= len {
                Some((&remain[len..remain.len()], &remain[0..len]))
            } else {
                None
            }
        },
        None => None,
    }
}

} // verus!
