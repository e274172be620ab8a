//! Varints: seven bits of the value per byte, least significant group first,
//! with the high bit of a byte set when more bytes follow. A 32-bit value
//! takes one to five bytes, a 64-bit value one to ten.

use crate::fixed::append_bytes;
use vstd::prelude::*;

verus! {

/// The varint encoding of `v`.
pub open spec fn varint_bytes(v: nat) -> Seq<u8>
    decreases v,
{
    if v < 128 {
        seq![v as u8]
    } else {
        seq![(v % 128 + 128) as u8] + varint_bytes(v / 128)
    }
}

/// Reads a varint from the front of `s`, looking at no more than `max`
/// bytes: the number of bytes it takes and the whole value they hold, or
/// `None` when none of the first `max` bytes (or of all of `s`, if shorter)
/// ends it.
pub open spec fn varint_parse(s: Seq<u8>, max: nat) -> Option<(nat, nat)>
    decreases s.len(),
{
    if s.len() == 0 || max == 0 {
        None
    } else if s[0] < 128 {
        Some((1, s[0] as nat))
    } else {
        match varint_parse(s.drop_first(), (max - 1) as nat) {
            Some((n, v)) => Some((n + 1, ((s[0] - 128) + 128 * v) as nat)),
            None => None,
        }
    }
}

/// What reading a 32-bit varint from the front of `s` gives: the input
/// after it and its value, of which only the low 32 bits are kept; `None`
/// when none of the first five bytes ends a varint.
pub open spec fn varint32_decoded(s: Seq<u8>) -> Option<(Seq<u8>, u32)> {
    match varint_parse(s, 5) {
        Some((n, v)) => Some((s.subrange(n as int, s.len() as int), (v % 0x1_0000_0000) as u32)),
        None => None,
    }
}

/// What reading a 64-bit varint from the front of `s` gives: the input
/// after it and its value, of which only the low 64 bits are kept; `None`
/// when none of the first ten bytes ends a varint.
pub open spec fn varint64_decoded(s: Seq<u8>) -> Option<(Seq<u8>, u64)> {
    match varint_parse(s, 10) {
        Some((n, v)) => Some(
            (s.subrange(n as int, s.len() as int), (v % 0x1_0000_0000_0000_0000) as u64),
        ),
        None => None,
    }
}

/// `128` to the power `n`: the first number that `n` varint bytes cannot
/// hold.
pub open spec fn group_bound(n: nat) -> nat
    decreases n,
{
    if n == 0 {
        1
    } else {
        128 * group_bound((n - 1) as nat)
    }
}

proof fn lemma_group_bounds()
    ensures
        group_bound(5) == 0x8_0000_0000,
        group_bound(10) == 0x40_0000_0000_0000_0000,
        forall|n: nat| n <= 10 ==> #[trigger] group_bound(n) <= 0x40_0000_0000_0000_0000,
{
    reveal_with_fuel(group_bound, 11);
    assert forall|n: nat| n <= 10 implies #[trigger] group_bound(n) <= 0x40_0000_0000_0000_0000 by {
        reveal_with_fuel(group_bound, 11);
    }
}

/// A varint is never empty, and only its last byte lacks the high bit.
proof fn lemma_varint_bytes_shape(v: nat)
    ensures
        varint_bytes(v).len() >= 1,
        forall|i: int|
            0 <= i < varint_bytes(v).len() ==> (#[trigger] varint_bytes(v)[i] >= 128 <==> i
                < varint_bytes(v).len() - 1),
    decreases v,
{
    if v >= 128 {
        lemma_varint_bytes_shape(v / 128);
    }
}

/// The length of the encoding of `v` is the least `k >= 1` with
/// `v < 128^k`: no shorter varint could hold `v`, and no byte is wasted.
pub proof fn varint_len_is_minimal(v: nat)
    ensures
        varint_bytes(v).len() >= 1,
        v < group_bound(varint_bytes(v).len()),
        varint_bytes(v).len() == 1 || group_bound((varint_bytes(v).len() - 1) as nat) <= v,
    decreases v,
{
    if v >= 128 {
        varint_len_is_minimal(v / 128);
        let k = varint_bytes(v / 128).len();
        assert(varint_bytes(v).len() == k + 1);
        let m = group_bound(k);
        assert(v < 128 * m) by (nonlinear_arith)
            requires
                v / 128 < m,
        ;
        if k > 1 {
            let m1 = group_bound((k - 1) as nat);
            assert(128 * m1 <= v) by (nonlinear_arith)
                requires
                    m1 <= v / 128,
            ;
        }
    } else {
        reveal_with_fuel(group_bound, 2);
    }
}

proof fn lemma_group_bound_monotonic(a: nat, b: nat)
    requires
        a <= b,
    ensures
        group_bound(a) <= group_bound(b),
    decreases b,
{
    if a < b {
        lemma_group_bound_monotonic(a, (b - 1) as nat);
    }
}

/// A value below `128^k`, for `k >= 1`, takes at most `k` varint bytes.
proof fn lemma_varint_len_bound(v: nat, k: nat)
    requires
        k >= 1,
        v < group_bound(k),
    ensures
        varint_bytes(v).len() <= k,
{
    varint_len_is_minimal(v);
    let n = varint_bytes(v).len();
    if n > k {
        lemma_group_bound_monotonic(k, (n - 1) as nat);
    }
}

proof fn lemma_varint_len_u32(v: u32)
    ensures
        varint_bytes(v as nat).len() <= 5,
{
    lemma_group_bounds();
    lemma_varint_len_bound(v as nat, 5);
}

proof fn lemma_varint_len_u64(v: u64)
    ensures
        varint_bytes(v as nat).len() <= 10,
{
    lemma_group_bounds();
    lemma_varint_len_bound(v as nat, 10);
}

/// Reading the encoding of `v`, followed by anything, takes exactly the
/// encoding and gives `v`, provided the reader may look that far.
proof fn lemma_parse_encoded(v: nat, rest: Seq<u8>, max: nat)
    requires
        varint_bytes(v).len() <= max,
    ensures
        varint_parse(varint_bytes(v) + rest, max) == Some((varint_bytes(v).len(), v)),
    decreases v,
{
    let s = varint_bytes(v) + rest;
    if v >= 128 {
        lemma_parse_encoded(v / 128, rest, (max - 1) as nat);
        assert(s.drop_first() =~= varint_bytes(v / 128) + rest);
    }
}

/// Input whose first `max` bytes (or all of it, if shorter) have the high
/// bit set holds no varint that a reader limited to `max` bytes accepts.
proof fn lemma_parse_unterminated(s: Seq<u8>, max: nat)
    requires
        forall|i: int| 0 <= i < s.len() && i < max ==> s[i] >= 128,
    ensures
        varint_parse(s, max) is None,
    decreases s.len(),
{
    if s.len() > 0 && max > 0 {
        assert(s[0] >= 128);
        let t = s.drop_first();
        assert forall|i: int| 0 <= i < t.len() && i < max - 1 implies t[i] >= 128 by {
            assert(t[i] == s[i + 1]);
        }
        lemma_parse_unterminated(t, (max - 1) as nat);
    }
}

/// Decoding the varint written for a 32-bit value, whatever follows it,
/// gives the value and leaves exactly what followed.
pub proof fn varint32_round_trip(v: u32, rest: Seq<u8>)
    ensures
        varint32_decoded(varint_bytes(v as nat) + rest) == Some((rest, v)),
{
    let e = varint_bytes(v as nat);
    lemma_varint_len_u32(v);
    lemma_parse_encoded(v as nat, rest, 5);
    assert((e + rest).subrange(e.len() as int, (e + rest).len() as int) =~= rest);
}

/// Decoding the varint written for a 64-bit value, whatever follows it,
/// gives the value and leaves exactly what followed.
pub proof fn varint64_round_trip(v: u64, rest: Seq<u8>)
    ensures
        varint64_decoded(varint_bytes(v as nat) + rest) == Some((rest, v)),
{
    let e = varint_bytes(v as nat);
    lemma_varint_len_u64(v);
    lemma_parse_encoded(v as nat, rest, 10);
    assert((e + rest).subrange(e.len() as int, (e + rest).len() as int) =~= rest);
}

/// Input that has the high bit set on each of its first five bytes (or on
/// all of them, if fewer) is refused as a 32-bit varint.
pub proof fn varint32_unterminated_fails(s: Seq<u8>)
    requires
        forall|i: int| 0 <= i < s.len() && i < 5 ==> s[i] >= 128,
    ensures
        varint32_decoded(s) is None,
{
    lemma_parse_unterminated(s, 5);
}

/// Input that has the high bit set on each of its first ten bytes (or on
/// all of them, if fewer) is refused as a 64-bit varint.
pub proof fn varint64_unterminated_fails(s: Seq<u8>)
    requires
        forall|i: int| 0 <= i < s.len() && i < 10 ==> s[i] >= 128,
    ensures
        varint64_decoded(s) is None,
{
    lemma_parse_unterminated(s, 10);
}

/// Adds `i` bytes already read, holding `acc`, with `scale == 128^i`, to
/// the result of reading what follows them.
spec fn varint_resume(o: Option<(nat, nat)>, i: nat, acc: nat, scale: nat) -> Option<
    (nat, nat),
> {
    match o {
        Some((n, v)) => Some((n + i, acc + scale * v)),
        None => None,
    }
}

/// Reads a varint of at most `max` bytes from the front of `input`: the
/// number of bytes it takes and the whole value they hold.
fn read_varint(input: &[u8], max: usize) -> (r: Option<(usize, u128)>)
    requires
        max <= 10,
    ensures
        match r {
            Some((n, v)) => varint_parse(input@, max as nat) == Some((n as nat, v as nat)),
            None => varint_parse(input@, max as nat) is None,
        },
        r matches Some((n, v)) ==> 1 <= n <= input@.len(),
{
    proof {
        lemma_group_bounds();
    }
    let ghost s = input@;
    let mut acc: u128 = 0;
    let mut scale: u128 = 1;
    let mut i: usize = 0;
    assert(s.subrange(0, s.len() as int) =~= s);
    while i < input.len()
        invariant
            i <= max <= 10,
            i <= s.len(),
            s == input@,
            scale == group_bound(i as nat),
            acc < scale,
            forall|n: nat| n <= 10 ==> #[trigger] group_bound(n) <= 0x40_0000_0000_0000_0000,
            varint_parse(s, max as nat) == varint_resume(
                varint_parse(s.subrange(i as int, s.len() as int), (max - i) as nat),
                i as nat,
                acc as nat,
                scale as nat,
            ),
        decreases s.len() - i,
    {
        if i >= max {
            return None;
        }
        let b = input[i];
        let ghost t = s.subrange(i as int, s.len() as int);
        assert(t.drop_first() =~= s.subrange(i + 1, s.len() as int));
        assert(b & 0x80 != 0 <==> b >= 128) by (bit_vector);
        if b & 0x80 != 0 {
            assert(b & 0x7f == b - 128) by (bit_vector)
                requires
                    b >= 128,
            ;
            let c = (b & 0x7f) as u128;
            let ghost m = group_bound((i + 1) as nat);
            assert(m == 128 * scale);
            assert(m <= 0x40_0000_0000_0000_0000);
            assert(acc + c * scale < 128 * scale) by (nonlinear_arith)
                requires
                    acc < scale,
                    c < 128,
            ;
            proof {
                match varint_parse(s.subrange(i + 1, s.len() as int), (max - i - 1) as nat) {
                    Some((n, v)) => {
                        assert(scale * (c + 128 * v) == c * scale + (128 * scale) * v)
                            by (nonlinear_arith);
                    },
                    None => {},
                }
            }
            acc = acc + c * scale;
            scale = scale * 128;
            i = i + 1;
        } else {
            let c = b as u128;
            assert(t.len() > 0 && t[0] == b);
            assert(varint_parse(t, (max - i) as nat) == Some((1nat, b as nat)));
            assert(scale * c == c * scale) by (nonlinear_arith);
            assert(varint_parse(s, max as nat) == Some(((i + 1) as nat, (acc + c * scale) as nat)));
            assert(acc + c * scale < 128 * scale) by (nonlinear_arith)
                requires
                    acc < scale,
                    c < 128,
            ;
            assert(group_bound((i + 1) as nat) == 128 * scale);
            return Some((i + 1, acc + c * scale));
        }
    }
    None
}

/// Writes the varint encoding of `value` over the start of `buf` and
/// returns its length.
fn write_varint(buf: &mut [u8], value: u64) -> (n: usize)
    requires
        varint_bytes(value as nat).len() <= old(buf)@.len(),
    ensures
        n == varint_bytes(value as nat).len(),
        final(buf)@ == varint_bytes(value as nat) + old(buf)@.subrange(
            n as int,
            old(buf)@.len() as int,
        ),
{
    let ghost len = buf@.len();
    let ghost total = varint_bytes(value as nat);
    let ghost rest = buf@.subrange(total.len() as int, len as int);
    let mut x: u64 = value;
    let mut i: usize = 0;
    while x >= 128
        invariant
            buf@.len() == len,
            total == varint_bytes(value as nat),
            total.len() <= len,
            i + varint_bytes(x as nat).len() == total.len(),
            buf@.subrange(0, i as int) + varint_bytes(x as nat) == total,
            buf@.subrange(total.len() as int, len as int) == rest,
        decreases x,
    {
        let ghost before = buf@;
        assert((x & 0x7f) | 0x80 == x % 128 + 128) by (bit_vector);
        assert(x >> 7 == x / 128) by (bit_vector);
        proof {
            lemma_varint_bytes_shape((x / 128) as nat);
        }
        buf[i] = ((x & 0x7f) | 0x80) as u8;
        assert(buf@.subrange(0, i + 1) =~= before.subrange(0, i as int).push(
            (x % 128 + 128) as u8,
        ));
        assert(buf@.subrange(total.len() as int, len as int) =~= before.subrange(
            total.len() as int,
            len as int,
        ));
        x = x >> 7;
        i = i + 1;
    }
    let ghost before = buf@;
    buf[i] = x as u8;
    assert(buf@.subrange(0, i + 1) =~= before.subrange(0, i as int).push(x as u8));
    assert(buf@ =~= total + rest);
    i + 1
}

/// The number of varint bytes that `value` takes.
fn varint_len(value: u64) -> (r: usize)
    ensures
        r == varint_bytes(value as nat).len(),
{
    proof {
        lemma_varint_len_u64(value);
    }
    let mut x: u64 = value;
    let mut r: usize = 1;
    while x >= 128
        invariant
            r >= 1,
            r + varint_bytes(x as nat).len() - 1 == varint_bytes(value as nat).len(),
            varint_bytes(value as nat).len() <= 10,
        decreases x,
    {
        assert(x >> 7 == x / 128) by (bit_vector);
        proof {
            lemma_varint_bytes_shape((x / 128) as nat);
        }
        x = x >> 7;
        r = r + 1;
    }
    r
}

/// Writes the varint encoding of `value` over the start of `buf`, which
/// must have room for it, and returns its length (one to five bytes).
pub fn encode_varint32(buf: &mut [u8], value: u32) -> (n: usize)
    requires
        varint_bytes(value as nat).len() <= old(buf)@.len(),
    ensures
        n == varint_bytes(value as nat).len(),
        1 <= n <= 5,
        final(buf)@ == varint_bytes(value as nat) + old(buf)@.subrange(
            n as int,
            old(buf)@.len() as int,
        ),
{
    proof {
        lemma_varint_len_u32(value);
        lemma_varint_bytes_shape(value as nat);
    }
    write_varint(buf, value as u64)
}

/// Writes the varint encoding of `value` over the start of `buf`, which
/// must have room for it, and returns its length (one to ten bytes).
pub fn encode_varint64(buf: &mut [u8], value: u64) -> (n: usize)
    requires
        varint_bytes(value as nat).len() <= old(buf)@.len(),
    ensures
        n == varint_bytes(value as nat).len(),
        1 <= n <= 10,
        final(buf)@ == varint_bytes(value as nat) + old(buf)@.subrange(
            n as int,
            old(buf)@.len() as int,
        ),
{
    proof {
        lemma_varint_len_u64(value);
        lemma_varint_bytes_shape(value as nat);
    }
    write_varint(buf, value)
}

/// Appends the varint encoding of `value` to `dst`.
pub fn put_varint32(dst: &mut Vec<u8>, value: u32)
    ensures
        final(dst)@ == old(dst)@ + varint_bytes(value as nat),
{
    proof {
        lemma_varint_len_u32(value);
    }
    let mut buf: Vec<u8> = vec![0u8; 5];
    let n = encode_varint32(buf.as_mut_slice(), value);
    let bytes = buf.as_slice();
    append_bytes(dst, &bytes[0..n]);
    assert(bytes@.subrange(0, n as int) =~= varint_bytes(value as nat));
}

/// Appends the varint encoding of `value` to `dst`.
pub fn put_varint64(dst: &mut Vec<u8>, value: u64)
    ensures
        final(dst)@ == old(dst)@ + varint_bytes(value as nat),
{
    proof {
        lemma_varint_len_u64(value);
    }
    let mut buf: Vec<u8> = vec![0u8; 10];
    let n = encode_varint64(buf.as_mut_slice(), value);
    let bytes = buf.as_slice();
    append_bytes(dst, &bytes[0..n]);
    assert(bytes@.subrange(0, n as int) =~= varint_bytes(value as nat));
}

/// Reads a 32-bit varint from the front of `input`: the input after it and
/// its value, or `None` when none of the first five bytes ends a varint.
pub fn get_varint32(input: &[u8]) -> (r: Option<(&[u8], u32)>)
    ensures
        match r {
            Some((rest, v)) => varint32_decoded(input@) == Some((rest@, v)),
            None => varint32_decoded(input@) is None,
        },
{
    match read_varint(input, 5) {
        Some((n, v)) => Some((&input[n..input.len()], (v % 0x1_0000_0000) as u32)),
        None => None,
    }
}

/// Reads a 64-bit varint from the front of `input`: the input after it and
/// its value, or `None` when none of the first ten bytes ends a varint.
pub fn get_varint64(input: &[u8]) -> (r: Option<(&[u8], u64)>)
    ensures
        match r {
            Some((rest, v)) => varint64_decoded(input@) == Some((rest@, v)),
            None => varint64_decoded(input@) is None,
        },
{
    match read_varint(input, 10) {
        Some((n, v)) => Some((&input[n..input.len()], (v % 0x1_0000_0000_0000_0000) as u64)),
        None => None,
    }
}

/// The number of bytes that the varint encoding of `value` takes.
pub fn varint32_length(value: u32) -> (r: usize)
    ensures
        r == varint_bytes(value as nat).len(),
{
    varint_len(value as u64)
}

/// The number of bytes that the varint encoding of `value` takes.
pub fn varint64_length(value: u64) -> (r: usize)
    ensures
        r == varint_bytes(value as nat).len(),
{
    varint_len(value)
}

} // verus!
