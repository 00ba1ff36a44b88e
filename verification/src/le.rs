//! Little-endian numbers.
use vstd::arithmetic::div_mod;
use vstd::arithmetic::power;
use vstd::prelude::*;

verus! {

/// The `width` low bytes of `n`, least significant first.
pub open spec fn le_bytes(n: nat, width: nat) -> Seq<u8>
    decreases width,
{
    if width == 0 {
        Seq::empty()
    } else {
        seq![(n % 256) as u8] + le_bytes(n / 256, (width - 1) as nat)
    }
}

/// The number whose bytes, least significant first, are `s`.
pub open spec fn le_value(s: Seq<u8>) -> nat
    decreases s.len(),
{
    if s.len() == 0 {
        0
    } else {
        s[0] as nat + 256 * le_value(s.skip(1))
    }
}

/// 256 to the power `width`: how many numbers `width` bytes can tell apart.
pub open spec fn capacity(width: nat) -> nat
    decreases width,
{
    if width == 0 {
        1
    } else {
        256 * capacity((width - 1) as nat)
    }
}

/// `le_bytes` has the width that was asked for.
pub proof fn lemma_le_bytes_len(n: nat, width: nat)
    ensures
        le_bytes(n, width).len() == width,
    decreases width,
{
    if width > 0 {
        lemma_le_bytes_len(n / 256, (width - 1) as nat);
    }
}

/// Reading back what was written gives the number, as far as its width holds it.
pub proof fn law_le_value_of_bytes(n: nat, width: nat)
    requires
        n < capacity(width),
    ensures
        le_bytes(n, width).len() == width,
        le_value(le_bytes(n, width)) == n,
    decreases width,
{
    lemma_le_bytes_len(n, width);
    if width > 0 {
        let rest = le_bytes(n / 256, (width - 1) as nat);
        law_le_value_of_bytes(n / 256, (width - 1) as nat);
        assert(le_bytes(n, width).skip(1) =~= rest);
    }
}

/// Writing what was read gives the bytes back; and `s.len()` bytes hold a number below
/// `capacity(s.len())`.
pub proof fn law_le_bytes_of_value(s: Seq<u8>)
    ensures
        le_value(s) < capacity(s.len()),
        le_bytes(le_value(s), s.len()) == s,
    decreases s.len(),
{
    if s.len() > 0 {
        let rest = s.skip(1);
        law_le_bytes_of_value(rest);
        assert(le_value(s) / 256 == le_value(rest));
        assert(le_value(s) % 256 == s[0]);
        assert(le_bytes(le_value(s), s.len()) =~= seq![s[0]] + rest);
        assert(seq![s[0]] + rest =~= s);
    }
}

/// The capacities of the two widths in use.
pub proof fn lemma_capacities()
    ensures
        capacity(4) == 0x1_0000_0000,
        capacity(8) == 0x1_0000_0000_0000_0000,
{
    reveal_with_fuel(capacity, 9);
}

/// A 32-bit number as four bytes.
pub fn u32_bytes(x: u32) -> (bytes: [u8; 4])
    ensures
        bytes@ == le_bytes(x as nat, 4),
{
    let bytes = [
        (x % 256) as u8,
        (x / 256 % 256) as u8,
        (x / 65536 % 256) as u8,
        (x / 16777216 % 256) as u8,
    ];
    proof {
        reveal_with_fuel(le_bytes, 5);
        assert(bytes@ =~= le_bytes(x as nat, 4));
    }
    bytes
}

/// A 64-bit number as eight bytes.
pub fn u64_bytes(x: u64) -> (bytes: [u8; 8])
    ensures
        bytes@ == le_bytes(x as nat, 8),
{
    let x1: u64 = x / 256;
    let x2: u64 = x1 / 256;
    let x3: u64 = x2 / 256;
    let x4: u64 = x3 / 256;
    let x5: u64 = x4 / 256;
    let x6: u64 = x5 / 256;
    let x7: u64 = x6 / 256;
    let bytes = [
        (x % 256) as u8,
        (x1 % 256) as u8,
        (x2 % 256) as u8,
        (x3 % 256) as u8,
        (x4 % 256) as u8,
        (x5 % 256) as u8,
        (x6 % 256) as u8,
        (x7 % 256) as u8,
    ];
    proof {
        reveal_with_fuel(le_bytes, 9);
        assert(bytes@ =~= le_bytes(x as nat, 8));
    }
    bytes
}

/// The number in the four bytes of `buf` at `at`.
pub fn read_u32(buf: &[u8], at: usize) -> (x: u32)
    requires
        at + 4 <= buf@.len(),
    ensures
        x == le_value(buf@.subrange(at as int, at + 4)),
{
    proof {
        let s = buf@.subrange(at as int, at + 4);
        lemma_value_of_four(s);
    }
    buf[at] as u32 + 256 * (buf[at + 1] as u32 + 256 * (buf[at + 2] as u32 + 256 * (buf[at
        + 3] as u32)))
}

/// The number in the eight bytes of `buf` at `at`.
pub fn read_u64(buf: &[u8], at: usize) -> (x: u64)
    requires
        at + 8 <= buf@.len(),
    ensures
        x == le_value(buf@.subrange(at as int, at + 8)),
{
    assert(at + 8 <= buf.len());
    let low = read_u32(buf, at);
    let high = read_u32(buf, at + 4);
    proof {
        let s = buf@.subrange(at as int, at + 8);
        let lo = buf@.subrange(at as int, at + 4);
        let hi = buf@.subrange(at + 4, at + 8);
        lemma_value_of_four(lo);
        lemma_value_of_four(hi);
        reveal_with_fuel(le_value, 5);
        assert(s.skip(1).skip(1).skip(1).skip(1) =~= hi);
    }
    low as u64 + 0x1_0000_0000u64 * (high as u64)
}

proof fn lemma_value_of_four(s: Seq<u8>)
    requires
        s.len() == 4,
    ensures
        le_value(s) == s[0] + 256 * (s[1] + 256 * (s[2] + 256 * s[3])),
{
    reveal_with_fuel(le_value, 5);
}

/// Appends a 32-bit number to `out`.
pub fn push_u32(out: &mut Vec<u8>, x: u32)
    ensures
        final(out)@ == old(out)@ + le_bytes(x as nat, 4),
{
    let bytes = u32_bytes(x);
    push_all(out, bytes.as_slice());
}

/// Appends a 64-bit number to `out`.
pub fn push_u64(out: &mut Vec<u8>, x: u64)
    ensures
        final(out)@ == old(out)@ + le_bytes(x as nat, 8),
{
    let bytes = u64_bytes(x);
    push_all(out, bytes.as_slice());
}

/// Appends `bytes` to `out`.
pub fn push_all(out: &mut Vec<u8>, bytes: &[u8])
    ensures
        final(out)@ == old(out)@ + bytes@,
{
    out.extend_from_slice(bytes);
    assert(out@ =~= old(out)@ + bytes@);
}

/// Each byte stands for its own power of 256: byte `i` of a number is what is left of the
/// number after dividing by 256 `i` times, as far as one byte shows it.
pub proof fn law_bytes_by_position(n: nat, width: nat, i: int)
    requires
        0 <= i < width,
    ensures
        le_bytes(n, width).len() == width,
        le_bytes(n, width)[i] == n as int / power::pow(256, i as nat) % 256,
    decreases width,
{
    lemma_le_bytes_len(n, width);
    lemma_le_bytes_len(n / 256, (width - 1) as nat);
    reveal(power::pow);
    if i > 0 {
        let p = power::pow(256, (i - 1) as nat);
        law_bytes_by_position(n / 256, (width - 1) as nat, i - 1);
        assert(le_bytes(n, width)[i] == le_bytes(n / 256, (width - 1) as nat)[i - 1]);
        power::lemma_pow_positive(256, (i - 1) as nat);
        div_mod::lemma_div_denominator(n as int, 256, p);
    }
}

/// A byte more adds its value times the power of 256 for its place; no bytes are worth 0.
pub proof fn law_value_by_position(s: Seq<u8>, b: u8)
    ensures
        le_value(Seq::<u8>::empty()) == 0,
        le_value(s.push(b)) == le_value(s) + b * power::pow(256, s.len()),
    decreases s.len(),
{
    reveal(power::pow);
    reveal_with_fuel(le_value, 2);
    if s.len() > 0 {
        let rest = s.skip(1);
        let p = power::pow(256, rest.len());
        law_value_by_position(rest, b);
        assert(s.push(b).skip(1) =~= rest.push(b));
        assert(256 * (b * p) == b * (256 * p)) by (nonlinear_arith);
    } else {
        assert(s.push(b).skip(1) =~= Seq::<u8>::empty());
    }
}

/// `capacity(width)` is 256 to the power `width`.
pub proof fn law_capacity_is_a_power(width: nat)
    ensures
        capacity(width) == power::pow(256, width),
    decreases width,
{
    reveal(power::pow);
    if width > 0 {
        law_capacity_is_a_power((width - 1) as nat);
    }
}

/// A 32-bit number has four bytes, which add up to it when each is taken at its place.
pub proof fn law_u32_bytes_add_up(x: u32, bytes: [u8; 4])
    requires
        call_ensures(u32_bytes, (x,), bytes),
    ensures
        x == bytes@[0] + 0x100 * bytes@[1] + 0x1_0000 * bytes@[2] + 0x100_0000 * bytes@[3],
{
    lemma_capacities();
    law_le_value_of_bytes(x as nat, 4);
    lemma_value_of_four(bytes@);
}

/// A 64-bit number has eight bytes, which add up to it when each is taken at its place.
pub proof fn law_u64_bytes_add_up(x: u64, bytes: [u8; 8])
    requires
        call_ensures(u64_bytes, (x,), bytes),
    ensures
        x == bytes@[0] + 0x100 * bytes@[1] + 0x1_0000 * bytes@[2] + 0x100_0000 * bytes@[3]
            + 0x1_0000_0000 * (bytes@[4] + 0x100 * bytes@[5] + 0x1_0000 * bytes@[6] + 0x100_0000
            * bytes@[7]),
{
    lemma_capacities();
    law_le_value_of_bytes(x as nat, 8);
    reveal_with_fuel(le_value, 9);
}

/// The number read at a place of a buffer is what the four bytes there add up to.
pub proof fn law_u32_is_read_in_place(buf: &[u8], at: usize, x: u32)
    requires
        at + 4 <= buf@.len(),
        call_ensures(read_u32, (buf, at), x),
    ensures
        x == buf@[at as int] + 0x100 * buf@[at + 1] + 0x1_0000 * buf@[at + 2] + 0x100_0000
            * buf@[at + 3],
{
    lemma_value_of_four(buf@.subrange(at as int, at + 4));
}

/// The number read at a place of a buffer is what the eight bytes there add up to.
pub proof fn law_u64_is_read_in_place(buf: &[u8], at: usize, x: u64)
    requires
        at + 8 <= buf@.len(),
        call_ensures(read_u64, (buf, at), x),
    ensures
        x == buf@[at as int] + 0x100 * buf@[at + 1] + 0x1_0000 * buf@[at + 2] + 0x100_0000
            * buf@[at + 3] + 0x1_0000_0000 * (buf@[at + 4] + 0x100 * buf@[at + 5] + 0x1_0000
            * buf@[at + 6] + 0x100_0000 * buf@[at + 7]),
{
    reveal_with_fuel(le_value, 9);
}

/// What is appended comes after what was there, which stays as it was: bytes as they are,
/// numbers as bytes that add up to them.
pub proof fn law_appending_keeps_what_was_there(
    out: &mut Vec<u8>,
    bytes: &[u8],
    wide: u64,
    narrow: u32,
)
    ensures
        call_ensures(push_all, (out, bytes), ()) ==> final(out)@ == old(out)@ + bytes@,
        call_ensures(push_u32, (out, narrow), ()) ==> {
            let added = final(out)@.skip(old(out)@.len() as int);
            &&& final(out)@ == old(out)@ + added
            &&& added.len() == 4
            &&& le_value(added) == narrow
        },
        call_ensures(push_u64, (out, wide), ()) ==> {
            let added = final(out)@.skip(old(out)@.len() as int);
            &&& final(out)@ == old(out)@ + added
            &&& added.len() == 8
            &&& le_value(added) == wide
        },
{
    lemma_capacities();
    law_le_value_of_bytes(narrow as nat, 4);
    law_le_value_of_bytes(wide as nat, 8);
    assert((old(out)@ + le_bytes(narrow as nat, 4)).skip(old(out)@.len() as int) =~= le_bytes(
        narrow as nat,
        4,
    ));
    assert((old(out)@ + le_bytes(wide as nat, 8)).skip(old(out)@.len() as int) =~= le_bytes(
        wide as nat,
        8,
    ));
}

} // verus!
