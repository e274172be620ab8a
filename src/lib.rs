//! Portable binary encodings of unsigned integers and byte strings:
//! fixed-width little-endian integers, base-128 varints, and byte strings
//! framed by a varint length.

mod fixed;
mod prefixed;
mod varint;

pub use fixed::{
    decode_fixed32, decode_fixed64, encode_fixed32, encode_fixed64, fixed32_round_trip,
    fixed64_round_trip, le_bytes, le_value, put_fixed32, put_fixed64,
};
pub use prefixed::{
    get_length_prefixed_slice, prefixed_bytes, prefixed_decoded, prefixed_round_trip,
    put_length_prefixed_slice,
};
pub use varint::{
    encode_varint32, encode_varint64, get_varint32, get_varint64, group_bound, put_varint32,
    put_varint64, varint32_decoded, varint32_length, varint32_round_trip,
    varint32_unterminated_fails, varint64_decoded, varint64_length, varint64_round_trip,
    varint64_unterminated_fails, varint_bytes, varint_len_is_minimal, varint_parse,
};
