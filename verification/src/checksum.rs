//! The checksum of the log: CRC-32 as IEEE 802.3 defines it.
use vstd::prelude::*;

verus! {

/// The generator polynomial, lowest power first.
pub const POLYNOMIAL: u32 = 0xEDB8_8320;

/// One step of the division: the lowest bit goes, and takes the polynomial with it.
pub open spec fn divided(c: u32) -> u32 {
    if c & 1 == 1 {
        (c >> 1) ^ POLYNOMIAL
    } else {
        c >> 1
    }
}

/// The same `n` times.
pub open spec fn divided_by(c: u32, n: nat) -> u32
    decreases n,
{
    if n == 0 {
        c
    } else {
        divided(divided_by(c, (n - 1) as nat))
    }
}

/// The remainder behind all of `bytes`, the last byte folded in last.
pub open spec fn remainder(bytes: Seq<u8>) -> u32
    decreases bytes.len(),
{
    if bytes.len() == 0 {
        0xFFFF_FFFF
    } else {
        divided_by(remainder(bytes.drop_last()) ^ (bytes.last() as u32), 8)
    }
}

/// The CRC-32 of some bytes.
#[verifier::opaque]
pub open spec fn crc32(bytes: Seq<u8>) -> u32 {
    !remainder(bytes)
}

/// `crc32fast::hash`: the CRC-32 (IEEE) of the bytes, which is what the crate
/// documents and its table-driven fallback computes.
#[verifier::external_body]
pub(crate) fn checksum(bytes: &[u8]) -> (r: u32)
    ensures
        r == crc32(bytes@),
{
    crc32fast::hash(bytes)
}

proof fn lemma_divided_injective(a: u32, b: u32, n: nat)
    requires
        divided_by(a, n) == divided_by(b, n),
    ensures
        a == b,
    decreases n,
{
    if n > 0 {
        let x = divided_by(a, (n - 1) as nat);
        let y = divided_by(b, (n - 1) as nat);
        assert((if x & 1 == 1 {
            (x >> 1) ^ 0xEDB8_8320
        } else {
            x >> 1
        }) == (if y & 1 == 1 {
            (y >> 1) ^ 0xEDB8_8320
        } else {
            y >> 1
        }) ==> x == y) by (bit_vector);
        lemma_divided_injective(a, b, (n - 1) as nat);
    }
}

proof fn lemma_remainders_differ(a: Seq<u8>, b: Seq<u8>, at: int)
    requires
        a.len() == b.len(),
        0 <= at < a.len(),
        a[at] != b[at],
        forall|i: int| 0 <= i < a.len() && i != at ==> a[i] == b[i],
    ensures
        remainder(a) != remainder(b),
    decreases a.len(),
{
    let a1 = a.drop_last();
    let b1 = b.drop_last();
    if remainder(a) == remainder(b) {
        let r = remainder(a1);
        let q = remainder(b1);
        let x = a.last();
        let y = b.last();
        lemma_divided_injective(r ^ (x as u32), q ^ (y as u32), 8);
        assert(r ^ (x as u32) == q ^ (x as u32) ==> r == q) by (bit_vector);
        assert(r ^ (x as u32) == r ^ (y as u32) ==> x == y) by (bit_vector);
        if at == a.len() - 1 {
            assert(a1 =~= b1);
        } else {
            lemma_remainders_differ(a1, b1, at);
        }
    }
}

/// A single changed byte always changes the checksum.
pub proof fn one_changed_byte_changes_the_checksum(a: Seq<u8>, b: Seq<u8>, at: int)
    requires
        a.len() == b.len(),
        0 <= at < a.len(),
        a[at] != b[at],
        forall|i: int| 0 <= i < a.len() && i != at ==> a[i] == b[i],
    ensures
        crc32(a) != crc32(b),
{
    reveal(crc32);
    lemma_remainders_differ(a, b, at);
    let r = remainder(a);
    let q = remainder(b);
    assert(r != q ==> !r != !q) by (bit_vector);
}

/// The checksum is the CRC-32 of IEEE 802.3, step by step: from all ones, over the
/// bits of every byte in turn, complemented at the end. `states` are the states
/// behind each number of bits.
pub proof fn the_checksum_takes_every_bit_in_turn(bytes: Seq<u8>, states: Seq<u32>)
    requires
        states.len() == 9 * bytes.len() + 1,
        states[0] == 0xFFFF_FFFF,
        forall|i: int|
            0 <= i < bytes.len() ==> #[trigger] states[9 * i + 1] == states[9 * i] ^ (bytes[i] as u32),
        forall|i: int, b: int|
            0 <= i < bytes.len() && 1 <= b <= 8 ==> #[trigger] states[9 * i + b + 1] == (if states[9 * i
                + b] & 1 == 1 {
                (states[9 * i + b] >> 1) ^ 0xEDB8_8320
            } else {
                states[9 * i + b] >> 1
            }),
    ensures
        crc32(bytes) == !states.last(),
{
    reveal(crc32);
    lemma_states(bytes, states, bytes.len() as int);
    assert(bytes.take(bytes.len() as int) =~= bytes);
}

proof fn lemma_states(bytes: Seq<u8>, states: Seq<u32>, n: int)
    requires
        0 <= n <= bytes.len(),
        states.len() == 9 * bytes.len() + 1,
        states[0] == 0xFFFF_FFFF,
        forall|i: int|
            0 <= i < bytes.len() ==> #[trigger] states[9 * i + 1] == states[9 * i] ^ (bytes[i] as u32),
        forall|i: int, b: int|
            0 <= i < bytes.len() && 1 <= b <= 8 ==> #[trigger] states[9 * i + b + 1] == (if states[9 * i
                + b] & 1 == 1 {
                (states[9 * i + b] >> 1) ^ 0xEDB8_8320
            } else {
                states[9 * i + b] >> 1
            }),
    ensures
        states[9 * n] == remainder(bytes.take(n)),
    decreases n,
{
    if n > 0 {
        let i = n - 1;
        lemma_states(bytes, states, i);
        assert(bytes.take(n).drop_last() =~= bytes.take(i));
        let c = states[9 * i + 1];
        assert(c == remainder(bytes.take(i)) ^ (bytes[i] as u32));
        reveal_with_fuel(divided_by, 9);
        assert(states[9 * i + 1 + 1] == divided_by(c, 1));
        assert(states[9 * i + 2 + 1] == divided_by(c, 2));
        assert(states[9 * i + 3 + 1] == divided_by(c, 3));
        assert(states[9 * i + 4 + 1] == divided_by(c, 4));
        assert(states[9 * i + 5 + 1] == divided_by(c, 5));
        assert(states[9 * i + 6 + 1] == divided_by(c, 6));
        assert(states[9 * i + 7 + 1] == divided_by(c, 7));
        assert(states[9 * i + 8 + 1] == divided_by(c, 8));
    }
}

} // verus!
