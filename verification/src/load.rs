//! Traffic for latency measurements: payloads, pacing and a source of random numbers.
use crate::le;
use vstd::prelude::*;

verus! {

/// Bytes of a measurement payload.
pub const PAYLOAD_LEN: usize = 41;

/// The instrument that measurement payloads speak of.
pub const BENCH_INSTRUMENT: u32 = 1001;

/// A measurement payload: the time of origin first, so that a receiver needs only the first
/// eight bytes; then price, bid and ask as the bit patterns of doubles, the instrument, the
/// sequence number and a reserved byte.
pub open spec fn tick_bytes(origin_ns: u64, price: u64, bid: u64, ask: u64, seq: u32) -> Seq<u8> {
    le::le_bytes(origin_ns as nat, 8) + le::le_bytes(price as nat, 8) + le::le_bytes(bid as nat, 8)
        + le::le_bytes(ask as nat, 8) + le::le_bytes(BENCH_INSTRUMENT as nat, 4) + le::le_bytes(
        seq as nat,
        4,
    ) + seq![0u8]
}

/// A measurement payload. Prices are given as the bit patterns of doubles.
pub fn encode_tick(origin_ns: u64, price_bits: u64, bid_bits: u64, ask_bits: u64, seq: u32) -> (b:
    Vec<u8>)
    ensures
        b@ == tick_bytes(origin_ns, price_bits, bid_bits, ask_bits, seq),
        b@.len() == PAYLOAD_LEN,
{
    let mut b: Vec<u8> = Vec::with_capacity(PAYLOAD_LEN);
    le::push_u64(&mut b, origin_ns);
    le::push_u64(&mut b, price_bits);
    le::push_u64(&mut b, bid_bits);
    le::push_u64(&mut b, ask_bits);
    le::push_u32(&mut b, BENCH_INSTRUMENT);
    le::push_u32(&mut b, seq);
    b.push(0);
    proof {
        assert(b@ =~= tick_bytes(origin_ns, price_bits, bid_bits, ask_bits, seq));
        le::lemma_le_bytes_len(origin_ns as nat, 8);
        le::lemma_le_bytes_len(price_bits as nat, 8);
        le::lemma_le_bytes_len(bid_bits as nat, 8);
        le::lemma_le_bytes_len(ask_bits as nat, 8);
        le::lemma_le_bytes_len(BENCH_INSTRUMENT as nat, 4);
        le::lemma_le_bytes_len(seq as nat, 4);
    }
    b
}

/// The time of origin in a payload, if the payload is long enough to hold one.
pub open spec fn origin_of(payload: Seq<u8>) -> Option<u64> {
    if payload.len() < 8 {
        None
    } else {
        Some(le::le_value(payload.take(8)) as u64)
    }
}

/// Reads the time of origin from a payload.
pub fn extract_origin_ns(payload: &[u8]) -> (origin: Option<u64>)
    ensures
        origin == origin_of(payload@),
{
    if payload.len() < 8 {
        return None;
    }
    assert(payload@.take(8) =~= payload@.subrange(0, 8));
    Some(le::read_u64(payload, 0))
}

/// The time of origin that was written is the one that is read, whatever follows it.
pub proof fn law_origin_is_read_back(origin_ns: u64, rest: Seq<u8>)
    ensures
        origin_of(le::le_bytes(origin_ns as nat, 8) + rest) == Some(origin_ns),
{
    le::lemma_capacities();
    le::law_le_value_of_bytes(origin_ns as nat, 8);
    assert((le::le_bytes(origin_ns as nat, 8) + rest).take(8) =~= le::le_bytes(
        origin_ns as nat,
        8,
    ));
}

/// Nanoseconds between two messages at a rate of so many a second; 0, for no pause at all,
/// at rate 0.
pub fn interval_ns(rate_hz: u64) -> (interval: u64)
    ensures
        interval == if rate_hz == 0 {
            0int
        } else {
            1_000_000_000int / rate_hz as int
        },
{
    if rate_hz == 0 {
        0
    } else {
        1_000_000_000 / rate_hz
    }
}

/// When message `i` is due, for messages that start at `start_ns` and keep an interval.
pub fn due_ns(start_ns: u64, i: u64, interval_ns: u64) -> (due: u64)
    requires
        start_ns + i * interval_ns <= u64::MAX,
    ensures
        due == start_ns + i * interval_ns,
{
    assert(0 <= i * interval_ns) by (nonlinear_arith);
    start_ns + i * interval_ns
}

/// A xorshift generator.
pub struct Rng {
    pub s: u64,
}

/// One step of the generator.
pub open spec fn xorshift(s: u64) -> u64 {
    let a = s ^ (s << 13);
    let b = a ^ (a >> 7);
    b ^ (b << 17)
}

impl Rng {
    /// A generator that starts at `seed`, or at a fixed number if `seed` is 0.
    pub fn new(seed: u64) -> (rng: Self)
        ensures
            rng.s == if seed == 0 {
                0xdead_beef_cafe_f00d
            } else {
                seed
            },
    {
        Rng {
            s: if seed == 0 {
                0xdead_beef_cafe_f00d
            } else {
                seed
            },
        }
    }

    /// The next number.
    pub fn next(&mut self) -> (n: u64)
        ensures
            n == xorshift(old(self).s),
            final(self).s == n,
    {
        self.s = self.s ^ (self.s << 13);
        self.s = self.s ^ (self.s >> 7);
        self.s = self.s ^ (self.s << 17);
        self.s
    }

    /// The high 53 bits of the next number: a fraction in units of 2^-53.
    pub fn next_fraction(&mut self) -> (n: u64)
        ensures
            n == xorshift(old(self).s) >> 11,
            n < 0x20_0000_0000_0000,
            final(self).s == xorshift(old(self).s),
    {
        let x = self.next();
        assert(x >> 11 < 0x20_0000_0000_0000) by (bit_vector);
        x >> 11
    }
}

/// A generator never gets stuck at 0: its state is not 0 to begin with and no step makes it 0.
pub proof fn law_generator_never_sticks(s: u64)
    requires
        s != 0,
    ensures
        xorshift(s) != 0,
{
    let a = s ^ (s << 13);
    let b = a ^ (a >> 7);
    assert(s != 0 ==> s ^ (s << 13) != 0) by (bit_vector);
    assert(a != 0 ==> a ^ (a >> 7) != 0) by (bit_vector);
    assert(b != 0 ==> b ^ (b << 17) != 0) by (bit_vector);
}

/// Where the parts of a measurement payload stand: the time of origin in bytes 0 to 7, price,
/// bid and ask in eight bytes each after it, the instrument in bytes 32 to 35, the sequence
/// number in bytes 36 to 39, and a zero byte.
pub proof fn law_measurement_payload_layout(
    origin_ns: u64,
    price_bits: u64,
    bid_bits: u64,
    ask_bits: u64,
    seq: u32,
    b: Vec<u8>,
)
    requires
        call_ensures(encode_tick, (origin_ns, price_bits, bid_bits, ask_bits, seq), b),
    ensures
        b@.len() == 41,
        le::le_value(b@.subrange(0, 8)) == origin_ns,
        le::le_value(b@.subrange(8, 16)) == price_bits,
        le::le_value(b@.subrange(16, 24)) == bid_bits,
        le::le_value(b@.subrange(24, 32)) == ask_bits,
        le::le_value(b@.subrange(32, 36)) == 1001,
        le::le_value(b@.subrange(36, 40)) == seq,
        b@[40] == 0,
        origin_of(b@) == Some(origin_ns),
{
    le::lemma_capacities();
    le::law_le_value_of_bytes(origin_ns as nat, 8);
    le::law_le_value_of_bytes(price_bits as nat, 8);
    le::law_le_value_of_bytes(bid_bits as nat, 8);
    le::law_le_value_of_bytes(ask_bits as nat, 8);
    le::law_le_value_of_bytes(BENCH_INSTRUMENT as nat, 4);
    le::law_le_value_of_bytes(seq as nat, 4);
    assert(b@.subrange(0, 8) =~= le::le_bytes(origin_ns as nat, 8));
    assert(b@.take(8) =~= b@.subrange(0, 8));
    assert(b@.subrange(8, 16) =~= le::le_bytes(price_bits as nat, 8));
    assert(b@.subrange(16, 24) =~= le::le_bytes(bid_bits as nat, 8));
    assert(b@.subrange(24, 32) =~= le::le_bytes(ask_bits as nat, 8));
    assert(b@.subrange(32, 36) =~= le::le_bytes(BENCH_INSTRUMENT as nat, 4));
    assert(b@.subrange(36, 40) =~= le::le_bytes(seq as nat, 4));
}

/// The time of origin is what the first eight bytes of a payload spell out, and a payload
/// tells one exactly if it has eight bytes.
pub proof fn law_origin_is_in_the_first_bytes(payload: &[u8], origin: Option<u64>)
    requires
        call_ensures(extract_origin_ns, (payload,), origin),
    ensures
        origin == origin_of(payload@),
        origin is Some <==> payload@.len() >= 8,
        origin matches Some(ns) ==> le::le_bytes(ns as nat, 8) == payload@.subrange(0, 8),
{
    if payload@.len() >= 8 {
        le::lemma_capacities();
        le::law_le_bytes_of_value(payload@.take(8));
        assert(payload@.take(8) =~= payload@.subrange(0, 8));
    }
}

/// `rate_hz` intervals fill a second as far as whole nanoseconds allow: they do not exceed
/// it, and with a nanosecond more they would. Without a rate there is no pause.
pub proof fn law_intervals_fill_a_second(rate_hz: u64, interval: u64)
    requires
        call_ensures(interval_ns, (rate_hz,), interval),
    ensures
        rate_hz == 0 ==> interval == 0,
        rate_hz > 0 ==> rate_hz * interval <= 1_000_000_000 < rate_hz * (interval + 1),
{
    if rate_hz > 0 {
        let r = rate_hz as int;
        let q = 1_000_000_000int / r;
        assert(r * q <= 1_000_000_000 < r * (q + 1)) by (nonlinear_arith)
            requires
                r > 0,
                q == 1_000_000_000int / r,
        ;
    }
}

/// The first message is due at the start and each later one an interval after the one before.
pub proof fn law_messages_are_due_at_intervals(
    start_ns: u64,
    i: u64,
    interval: u64,
    due: u64,
    next_due: u64,
)
    ensures
        call_ensures(due_ns, (start_ns, 0, interval), due) ==> due == start_ns,
        i < u64::MAX && call_ensures(due_ns, (start_ns, i, interval), due) && call_ensures(
            due_ns,
            (start_ns, (i + 1) as u64, interval),
            next_due,
        ) ==> next_due == due + interval,
{
    assert((i + 1) * interval == i * interval + interval) by (nonlinear_arith);
    assert(0 * interval == 0);
}

/// A generator starts at the seed it was given. Only 0, at which it would stick, gives way to
/// a fixed number, which is not 0.
pub proof fn law_generator_starts_at_its_seed(seed: u64, rng: Rng)
    requires
        call_ensures(Rng::new, (seed,), rng),
    ensures
        seed != 0 ==> rng.s == seed,
        seed == 0 ==> rng.s == 0xdead_beef_cafe_f00d,
        rng.s != 0,
{
}

/// A step of the generator can be undone: shifted over itself by 17 to the left, then by 7 to
/// the right, then by 13 to the left, each time as often as bits are left, the new state
/// gives the old one. So no two states have the same successor.
pub proof fn law_generator_step_can_be_undone(s: u64)
    ensures
        ({
            let n = xorshift(s);
            let b = n ^ (n << 17) ^ (n << 34) ^ (n << 51);
            let a = b ^ (b >> 7) ^ (b >> 14) ^ (b >> 21) ^ (b >> 28) ^ (b >> 35) ^ (b >> 42) ^ (b
                >> 49) ^ (b >> 56) ^ (b >> 63);
            a ^ (a << 13) ^ (a << 26) ^ (a << 39) ^ (a << 52) == s
        }),
{
    let a0 = s ^ (s << 13);
    let b0 = a0 ^ (a0 >> 7);
    let n = b0 ^ (b0 << 17);
    assert(n ^ (n << 17) ^ (n << 34) ^ (n << 51) == b0) by (bit_vector)
        requires
            n == b0 ^ (b0 << 17),
    ;
    assert(b0 ^ (b0 >> 7) ^ (b0 >> 14) ^ (b0 >> 21) ^ (b0 >> 28) ^ (b0 >> 35) ^ (b0 >> 42) ^ (b0
        >> 49) ^ (b0 >> 56) ^ (b0 >> 63) == a0) by (bit_vector)
        requires
            b0 == a0 ^ (a0 >> 7),
    ;
    assert(a0 ^ (a0 << 13) ^ (a0 << 26) ^ (a0 << 39) ^ (a0 << 52) == s) by (bit_vector)
        requires
            a0 == s ^ (s << 13),
    ;
}

/// A number drawn is the generator's new state, one step after the old one; a fraction drawn
/// is that state without its low 11 bits.
pub proof fn law_numbers_are_drawn_from_the_state(rng: &mut Rng, n: u64)
    ensures
        call_ensures(Rng::next, (rng,), n) ==> {
            &&& n == xorshift(old(rng).s)
            &&& final(rng).s == n
        },
        call_ensures(Rng::next_fraction, (rng,), n) ==> {
            &&& final(rng).s == xorshift(old(rng).s)
            &&& n * 2048 <= final(rng).s < (n + 1) * 2048
        },
{
    let x = xorshift(old(rng).s);
    assert((x >> 11) * 2048 <= x < ((x >> 11) + 1) * 2048) by (bit_vector);
}

} // verus!
