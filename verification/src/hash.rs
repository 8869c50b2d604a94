//! The hash whose values are stored in bloom filters on disk: FNV-1a followed
//! by the MurmurHash3 finalizer. The algorithm is fixed, so a filter written
//! today can be read by every later build.
use vstd::prelude::*;

verus! {

pub const FNV_OFFSET_BASIS: u64 = 0xcbf2_9ce4_8422_2325;

pub const FNV_PRIME: u64 = 0x0000_0100_0000_01b3;

pub const MIX_FIRST: u64 = 0xff51_afd7_ed55_8ccd;

pub const MIX_SECOND: u64 = 0xc4ce_b9fe_1a85_ec53;

/// The product modulo 2^64.
pub open spec fn times(a: u64, b: u64) -> u64 {
    (a * b % 0x1_0000_0000_0000_0000) as u64
}

/// FNV-1a over all of `bytes`, the last byte folded in last.
pub open spec fn fnv1a(bytes: Seq<u8>) -> u64
    decreases bytes.len(),
{
    if bytes.len() == 0 {
        FNV_OFFSET_BASIS
    } else {
        times(fnv1a(bytes.drop_last()) ^ (bytes.last() as u64), FNV_PRIME)
    }
}

/// `hash` with its upper half folded into its lower half.
pub open spec fn fold(hash: u64) -> u64 {
    hash ^ (hash >> 33)
}

/// The finalizer: three folds with a multiplication between each two.
pub open spec fn spec_mix(hash: u64) -> u64 {
    fold(times(fold(times(fold(hash), MIX_FIRST)), MIX_SECOND))
}

/// The stored hash of `bytes`.
pub open spec fn spec_hash64(bytes: Seq<u8>) -> u64 {
    spec_mix(fnv1a(bytes))
}

/// Hashes a key.
pub fn hash64(bytes: &[u8]) -> (r: u64)
    ensures
        r == spec_hash64(bytes@),
{
    let mut hash: u64 = FNV_OFFSET_BASIS;
    let mut i: usize = 0;
    while i < bytes.len()
        invariant
            i <= bytes@.len(),
            hash == fnv1a(bytes@.take(i as int)),
        decreases bytes@.len() - i,
    {
        assert(bytes@.take(i + 1).drop_last() =~= bytes@.take(i as int));
        hash = hash ^ (bytes[i] as u64);
        hash = hash.wrapping_mul(FNV_PRIME);
        i = i + 1;
    }
    assert(bytes@.take(i as int) =~= bytes@);
    mix(hash)
}

/// Spreads every input bit over the whole word.
pub fn mix(hash: u64) -> (r: u64)
    ensures
        r == spec_mix(hash),
{
    let mut h: u64 = hash;
    h = h ^ (h >> 33);
    h = h.wrapping_mul(MIX_FIRST);
    h = h ^ (h >> 33);
    h = h.wrapping_mul(MIX_SECOND);
    h ^ (h >> 33)
}

/// Multiplication by a number that has an inverse loses nothing.
proof fn lemma_times_injective(a: u64, b: u64, p: u64, inverse: u64)
    requires
        p * inverse % 0x1_0000_0000_0000_0000 == 1,
        times(a, p) == times(b, p),
    ensures
        a == b,
{
    lemma_times_undone(a, p, inverse);
    lemma_times_undone(b, p, inverse);
}

proof fn lemma_times_undone(a: u64, p: u64, inverse: u64)
    requires
        p * inverse % 0x1_0000_0000_0000_0000 == 1,
    ensures
        times(times(a, p), inverse) == a,
{
    let m = 0x1_0000_0000_0000_0000int;
    let product = a as int * p as int;
    vstd::arithmetic::div_mod::lemma_mul_mod_noop_left(product, inverse as int, m);
    vstd::arithmetic::mul::lemma_mul_is_associative(a as int, p as int, inverse as int);
    vstd::arithmetic::div_mod::lemma_mul_mod_noop_right(a as int, p as int * inverse as int, m);
    vstd::arithmetic::div_mod::lemma_small_mod(a as nat, m as nat);
}

proof fn lemma_fold_injective(a: u64, b: u64)
    requires
        fold(a) == fold(b),
    ensures
        a == b,
{
    assert(a ^ (a >> 33) == b ^ (b >> 33) ==> a == b) by (bit_vector);
}

/// The finalizer loses nothing: different words stay different.
pub proof fn mix_is_injective(a: u64, b: u64)
    requires
        spec_mix(a) == spec_mix(b),
    ensures
        a == b,
{
    let a1 = times(fold(a), MIX_FIRST);
    let b1 = times(fold(b), MIX_FIRST);
    let a2 = times(fold(a1), MIX_SECOND);
    let b2 = times(fold(b1), MIX_SECOND);
    lemma_fold_injective(a2, b2);
    lemma_times_injective(fold(a1), fold(b1), MIX_SECOND, 0x9cb4_b2f8_1293_37db);
    lemma_fold_injective(a1, b1);
    lemma_times_injective(fold(a), fold(b), MIX_FIRST, 0x4f74_430c_22a5_4005);
    lemma_fold_injective(a, b);
}

/// Folding in one byte loses nothing of the state, nor of the byte.
proof fn lemma_step_injective(a: u64, x: u8, b: u64, y: u8)
    requires
        times(a ^ (x as u64), FNV_PRIME) == times(b ^ (y as u64), FNV_PRIME),
    ensures
        x == y ==> a == b,
        a == b ==> x == y,
{
    lemma_times_injective(a ^ (x as u64), b ^ (y as u64), FNV_PRIME, 0xce96_5057_aff6_957b);
    assert(a ^ (x as u64) == b ^ (x as u64) ==> a == b) by (bit_vector);
    assert(a ^ (x as u64) == a ^ (y as u64) ==> x == y) by (bit_vector);
}

proof fn lemma_states_differ(a: Seq<u8>, b: Seq<u8>, at: int)
    requires
        a.len() == b.len(),
        0 <= at < a.len(),
        a[at] != b[at],
        forall|i: int| 0 <= i < a.len() && i != at ==> a[i] == b[i],
    ensures
        fnv1a(a) != fnv1a(b),
    decreases a.len(),
{
    let a1 = a.drop_last();
    let b1 = b.drop_last();
    if fnv1a(a) == fnv1a(b) {
        lemma_step_injective(fnv1a(a1), a.last(), fnv1a(b1), b.last());
        if at == a.len() - 1 {
            assert(a1 =~= b1);
        } else {
            lemma_states_differ(a1, b1, at);
        }
    }
}

/// Two inputs of one length that differ in a single byte have different hashes.
pub proof fn one_changed_byte_changes_the_hash(a: Seq<u8>, b: Seq<u8>, at: int)
    requires
        a.len() == b.len(),
        0 <= at < a.len(),
        a[at] != b[at],
        forall|i: int| 0 <= i < a.len() && i != at ==> a[i] == b[i],
    ensures
        spec_hash64(a) != spec_hash64(b),
{
    lemma_states_differ(a, b, at);
    if spec_hash64(a) == spec_hash64(b) {
        mix_is_injective(fnv1a(a), fnv1a(b));
    }
}

/// The hash is the one that is documented, step by step: FNV-1a from its offset
/// basis over every byte in turn, and then the finalizer. `states` are the states
/// behind each number of bytes, and `first` and `second` the products within the
/// finalizer.
pub proof fn the_hash_takes_every_byte_in_turn(
    bytes: Seq<u8>,
    states: Seq<u64>,
    first: u64,
    second: u64,
)
    requires
        states.len() == bytes.len() + 1,
        states[0] == 0xcbf2_9ce4_8422_2325,
        forall|i: int|
            0 <= i < bytes.len() ==> #[trigger] states[i + 1] == ((states[i] ^ (bytes[i] as u64))
                * 0x100_0000_01b3) % 0x1_0000_0000_0000_0000,
        first == ((states.last() ^ (states.last() >> 33)) * 0xff51_afd7_ed55_8ccd)
            % 0x1_0000_0000_0000_0000,
        second == ((first ^ (first >> 33)) * 0xc4ce_b9fe_1a85_ec53) % 0x1_0000_0000_0000_0000,
    ensures
        spec_hash64(bytes) == second ^ (second >> 33),
{
    lemma_states(bytes, states, bytes.len() as int);
    assert(bytes.take(bytes.len() as int) =~= bytes);
}

proof fn lemma_states(bytes: Seq<u8>, states: Seq<u64>, n: int)
    requires
        0 <= n <= bytes.len(),
        states.len() == bytes.len() + 1,
        states[0] == 0xcbf2_9ce4_8422_2325,
        forall|i: int|
            0 <= i < bytes.len() ==> #[trigger] states[i + 1] == ((states[i] ^ (bytes[i] as u64))
                * 0x100_0000_01b3) % 0x1_0000_0000_0000_0000,
    ensures
        states[n] == fnv1a(bytes.take(n)),
    decreases n,
{
    if n > 0 {
        lemma_states(bytes, states, n - 1);
        assert(bytes.take(n).drop_last() =~= bytes.take(n - 1));
        assert(states[(n - 1) + 1] == ((states[n - 1] ^ (bytes[n - 1] as u64)) * 0x100_0000_01b3)
            % 0x1_0000_0000_0000_0000);
    }
}

} // verus!
