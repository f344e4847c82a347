//! Small helpers: fresh order ids, wall-clock timestamps, and the
//! big-endian byte form of prices.

use vstd::prelude::*;

verus! {

/// Relies on `uuid::Uuid::new_v4` and `Uuid::as_u128`: a freshly generated
/// random version-4 UUID as a 128-bit integer. Nothing is promised of the
/// value.
#[verifier::external_body]
pub(crate) fn fresh_order_id() -> u128 {
    uuid::Uuid::new_v4().as_u128()
}

/// Relies on `std::time::SystemTime::now` and
/// `SystemTime::duration_since(UNIX_EPOCH)`: the seconds and sub-second
/// nanoseconds of the time elapsed since the Unix epoch; the nanosecond
/// part is below one billion. Yields zero for a clock before the epoch.
#[verifier::external_body]
fn unix_clock_parts() -> (r: (u64, u32))
    ensures
        r.1 < 1_000_000_000,
{
    match std::time::SystemTime::now().duration_since(std::time::SystemTime::UNIX_EPOCH) {
        Ok(d) => (d.as_secs(), d.subsec_nanos()),
        Err(_) => (0, 0),
    }
}

/// The time since the Unix epoch in nanoseconds, as a 128-bit integer.
pub fn generate_u128_timestamp() -> (r: u128) {
    let (secs, nanos) = unix_clock_parts();
    secs as u128 * 1_000_000_000 + nanos as u128
}

/// The time since the Unix epoch in microseconds, as a 128-bit integer.
pub fn get_timestamp_now_micros() -> (r: u128) {
    let (secs, nanos) = unix_clock_parts();
    secs as u128 * 1_000_000 + (nanos / 1000) as u128
}

/// Byte `i` of the big-endian form of a 64-bit price.
pub open spec fn u64_be_byte(v: u64, i: int) -> u8 {
    ((v >> (((7 - i) * 8) as u64)) & 0xff) as u8
}

/// The value read from a big-endian byte sequence.
pub open spec fn be_value(s: Seq<u8>) -> int
    decreases s.len(),
{
    if s.len() == 0 {
        0
    } else {
        be_value(s.drop_last()) * 256 + s.last()
    }
}

/// 256 to the `k`.
pub open spec fn pow256(k: nat) -> int
    decreases k,
{
    if k == 0 {
        1
    } else {
        256 * pow256((k - 1) as nat)
    }
}

/// `256^k` is at least one.
proof fn lemma_pow256_pos(k: nat)
    ensures
        pow256(k) >= 1,
    decreases k,
{
    if k > 0 {
        lemma_pow256_pos((k - 1) as nat);
    }
}

/// `256^k` grows with `k`.
proof fn lemma_pow256_monotone(a: nat, b: nat)
    requires
        a <= b,
    ensures
        pow256(a) <= pow256(b),
    decreases b,
{
    if a < b {
        lemma_pow256_monotone(a, (b - 1) as nat);
        lemma_pow256_pos((b - 1) as nat);
    }
}

/// A big-endian byte sequence of length `k` reads below `256^k`.
proof fn lemma_be_value_bound(s: Seq<u8>)
    ensures
        0 <= be_value(s) < pow256(s.len()),
    decreases s.len(),
{
    if s.len() > 0 {
        lemma_be_value_bound(s.drop_last());
        assert(be_value(s.drop_last()) * 256 + s.last() < pow256(s.len())) by (nonlinear_arith)
            requires
                0 <= be_value(s.drop_last()) < pow256((s.len() - 1) as nat),
                s.last() < 256,
                pow256(s.len()) == 256 * pow256((s.len() - 1) as nat),
        {}
    }
}

/// The eight bytes of a price, most significant first.
pub fn price_to_bytes(value: u64) -> (r: Vec<u8>)
    ensures
        r@.len() == 8,
        forall|i: int| 0 <= i < 8 ==> r@[i] == u64_be_byte(value, i),
{
    let mut r: Vec<u8> = Vec::with_capacity(8);
    let mut i: usize = 0;
    while i < 8
        invariant
            i <= 8,
            r@.len() == i,
            forall|k: int| 0 <= k < i ==> r@[k] == u64_be_byte(value, k),
        decreases 8 - i,
    {
        let shift: u64 = ((7 - i) * 8) as u64;
        r.push(((value >> shift) & 0xff) as u8);
        i += 1;
    }
    r
}

/// Reads a price back from its eight big-endian bytes. Byte sequences of
/// any other length are rejected by the precondition.
pub fn bytes_to_price(value: Vec<u8>) -> (r: u64)
    requires
        value@.len() == 8,
    ensures
        r == be_value(value@),
{
    proof {
        assert(pow256(8) == 0x1_0000_0000_0000_0000) by {
            reveal_with_fuel(pow256, 9);
        }
    }
    let mut acc: u64 = 0;
    let mut i: usize = 0;
    while i < 8
        invariant
            i <= 8,
            value@.len() == 8,
            acc == be_value(value@.take(i as int)),
            pow256(8) == 0x1_0000_0000_0000_0000,
        decreases 8 - i,
    {
        proof {
            assert(value@.take(i + 1).drop_last() =~= value@.take(i as int));
            assert(value@.take(i + 1).last() == value@[i as int]);
            lemma_be_value_bound(value@.take(i as int));
            lemma_pow256_monotone((i + 1) as nat, 8);
            assert(pow256(((i + 1) as nat)) == 256 * pow256(i as nat));
            assert(acc * 256 + value@[i as int] < pow256((i + 1) as nat)) by (nonlinear_arith)
                requires
                    0 <= acc < pow256(i as nat),
                    0 <= value@[i as int] < 256,
                    pow256(((i + 1) as nat)) == 256 * pow256(i as nat),
            {}
        }
        acc = acc * 256 + value[i] as u64;
        i += 1;
    }
    proof {
        assert(value@.take(8) =~= value@);
    }
    acc
}

} // verus!
