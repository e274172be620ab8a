//! Fixed-width integers: exactly 4 or 8 bytes, least significant byte first,
//! whatever the byte order of the host.

use vstd::prelude::*;

verus! {

/// The first `n` base-256 digits of `v`, least significant first.
pub open spec fn le_bytes(v: nat, n: nat) -> Seq<u8>
    decreases n,
{
    if n == 0 {
        Seq::empty()
    } else {
        seq![(v % 256) as u8] + le_bytes(v / 256, (n - 1) as nat)
    }
}

/// The number whose base-256 digits, least significant first, are `s`.
pub open spec fn le_value(s: Seq<u8>) -> nat
    decreases s.len(),
{
    if s.len() == 0 {
        0
    } else {
        s[0] as nat + 256 * le_value(s.drop_first())
    }
}

/// `256` to the power `n`: the first number that `n` bytes cannot hold.
spec fn byte_bound(n: nat) -> nat
    decreases n,
{
    if n == 0 {
        1
    } else {
        256 * byte_bound((n - 1) as nat)
    }
}

proof fn lemma_le_bytes_len(v: nat, n: nat)
    ensures
        le_bytes(v, n).len() == n,
    decreases n,
{
    if n > 0 {
        lemma_le_bytes_len(v / 256, (n - 1) as nat);
    }
}

proof fn lemma_le_value_bound(s: Seq<u8>)
    ensures
        le_value(s) < byte_bound(s.len()),
    decreases s.len(),
{
    if s.len() > 0 {
        let t = s.drop_first();
        lemma_le_value_bound(t);
        let a = s[0] as nat;
        let b = le_value(t);
        let m = byte_bound(t.len());
        assert(a + 256 * b < 256 * m) by (nonlinear_arith)
            requires
                a < 256,
                b < m,
        ;
    }
}

proof fn lemma_le_round_trip(v: nat, n: nat)
    requires
        v < byte_bound(n),
    ensures
        le_value(le_bytes(v, n)) == v,
    decreases n,
{
    if n > 0 {
        let m = byte_bound((n - 1) as nat);
        assert(v / 256 < m) by (nonlinear_arith)
            requires
                v < 256 * m,
        ;
        lemma_le_round_trip(v / 256, (n - 1) as nat);
        let s = le_bytes(v, n);
        lemma_le_bytes_len(v / 256, (n - 1) as nat);
        assert(s.drop_first() =~= le_bytes(v / 256, (n - 1) as nat));
        assert(v == v % 256 + 256 * (v / 256)) by (nonlinear_arith);
    }
}

proof fn lemma_byte_bounds()
    ensures
        byte_bound(4) == 0x1_0000_0000,
        byte_bound(8) == 0x1_0000_0000_0000_0000,
        forall|n: nat| n <= 8 ==> #[trigger] byte_bound(n) <= 0x1_0000_0000_0000_0000,
{
    reveal_with_fuel(byte_bound, 9);
    assert forall|n: nat| n <= 8 implies #[trigger] byte_bound(n) <= 0x1_0000_0000_0000_0000 by {
        reveal_with_fuel(byte_bound, 9);
    }
}

/// Decoding the four bytes written for a 32-bit value gives the value back.
pub proof fn fixed32_round_trip(v: u32)
    ensures
        le_value(le_bytes(v as nat, 4)) == v,
{
    lemma_byte_bounds();
    lemma_le_round_trip(v as nat, 4);
}

/// Decoding the eight bytes written for a 64-bit value gives the value back.
pub proof fn fixed64_round_trip(v: u64)
    ensures
        le_value(le_bytes(v as nat, 8)) == v,
{
    lemma_byte_bounds();
    lemma_le_round_trip(v as nat, 8);
}

/// Writes the low `n` bytes of `value`, least significant first, over the
/// start of `buf`.
fn encode_le(buf: &mut [u8], value: u64, n: usize)
    requires
        n <= old(buf)@.len(),
    ensures
        final(buf)@ == le_bytes(value as nat, n as nat) + old(buf)@.subrange(
            n as int,
            old(buf)@.len() as int,
        ),
{
    let ghost len = buf@.len();
    let ghost rest = buf@.subrange(n as int, len as int);
    let mut x: u64 = value;
    let mut i: usize = 0;
    while i < n
        invariant
            i <= n <= len,
            buf@.len() == len,
            buf@.subrange(n as int, len as int) == rest,
            buf@.subrange(0, i as int) + le_bytes(x as nat, (n - i) as nat) == le_bytes(
                value as nat,
                n as nat,
            ),
        decreases n - i,
    {
        let ghost before = buf@;
        assert(x & 0xff == x % 256) by (bit_vector);
        assert(x >> 8 == x / 256) by (bit_vector);
        buf[i] = (x & 0xff) as u8;
        assert(buf@.subrange(0, i + 1) =~= before.subrange(0, i as int).push((x % 256) as u8));
        assert(buf@.subrange(n as int, len as int) =~= before.subrange(n as int, len as int));
        x = x >> 8;
        i = i + 1;
    }
    assert(buf@ =~= buf@.subrange(0, n as int) + rest);
}

/// Reads the first `n` bytes of `input` as an integer, least significant
/// byte first.
fn decode_le(input: &[u8], n: usize) -> (r: u64)
    requires
        n <= 8,
        n <= input@.len(),
    ensures
        r == le_value(input@.subrange(0, n as int)),
{
    proof {
        lemma_byte_bounds();
    }
    let mut r: u64 = 0;
    let mut i: usize = n;
    while i > 0
        invariant
            i <= n <= 8,
            n <= input@.len(),
            r == le_value(input@.subrange(i as int, n as int)),
            r < byte_bound((n - i) as nat),
            forall|k: nat| k <= 8 ==> #[trigger] byte_bound(k) <= 0x1_0000_0000_0000_0000,
        decreases i,
    {
        i = i - 1;
        let b = input[i];
        let ghost m = byte_bound((n - i - 1) as nat);
        assert(r * 256 + b < 256 * m) by (nonlinear_arith)
            requires
                r < m,
                b < 256,
        ;
        assert(byte_bound((n - i) as nat) == 256 * m);
        assert(byte_bound((n - i) as nat) <= 0x1_0000_0000_0000_0000);
        assert(input@.subrange(i as int, n as int).drop_first() =~= input@.subrange(
            i + 1,
            n as int,
        ));
        r = r * 256 + b as u64;
    }
    r
}

/// Writes `value` over the first four bytes of `buf`, least significant
/// byte first; the bytes after them are left as they were.
pub fn encode_fixed32(buf: &mut [u8], value: u32)
    requires
        old(buf)@.len() >= 4,
    ensures
        final(buf)@ == le_bytes(value as nat, 4) + old(buf)@.subrange(4, old(buf)@.len() as int),
{
    encode_le(buf, value as u64, 4);
}

/// Writes `value` over the first eight bytes of `buf`, least significant
/// byte first; the bytes after them are left as they were.
pub fn encode_fixed64(buf: &mut [u8], value: u64)
    requires
        old(buf)@.len() >= 8,
    ensures
        final(buf)@ == le_bytes(value as nat, 8) + old(buf)@.subrange(8, old(buf)@.len() as int),
{
    encode_le(buf, value, 8);
}

/// Reads a 32-bit value from the first four bytes of `input`, least
/// significant byte first.
pub fn decode_fixed32(input: &[u8]) -> (r: u32)
    requires
        input@.len() >= 4,
    ensures
        r == le_value(input@.subrange(0, 4)),
{
    let r = decode_le(input, 4);
    proof {
        lemma_byte_bounds();
        lemma_le_value_bound(input@.subrange(0, 4));
    }
    r as u32
}

/// Reads a 64-bit value from the first eight bytes of `input`, least
/// significant byte first.
pub fn decode_fixed64(input: &[u8]) -> (r: u64)
    requires
        input@.len() >= 8,
    ensures
        r == le_value(input@.subrange(0, 8)),
{
    decode_le(input, 8)
}

/// Appends the four little-endian bytes of `value` to `dst`.
pub fn put_fixed32(dst: &mut Vec<u8>, value: u32)
    ensures
        final(dst)@ == old(dst)@ + le_bytes(value as nat, 4),
{
    let mut buf: Vec<u8> = vec![0u8; 4];
    encode_fixed32(buf.as_mut_slice(), value);
    append_bytes(dst, buf.as_slice());
}

/// Appends the eight little-endian bytes of `value` to `dst`.
pub fn put_fixed64(dst: &mut Vec<u8>, value: u64)
    ensures
        final(dst)@ == old(dst)@ + le_bytes(value as nat, 8),
{
    let mut buf: Vec<u8> = vec![0u8; 8];
    encode_fixed64(buf.as_mut_slice(), value);
    append_bytes(dst, buf.as_slice());
}

/// Appends the bytes of `src` to `dst`, in order.
pub(crate) fn append_bytes(dst: &mut Vec<u8>, src: &[u8])
    ensures
        final(dst)@ == old(dst)@ + src@,
{
    dst.extend_from_slice(src);
    assert(dst@ =~= old(dst)@ + src@);
}

} // verus!
