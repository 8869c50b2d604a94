//! A bloom filter over 64-bit hashes. It answers "maybe" or "certainly not":
//! a hash that was inserted is always found, a hash that was not is found only
//! by chance.
use vstd::prelude::*;

verus! {

/// ln 2 in units of 10^-12. The probe count is capped long before another digit
/// could change the rounding.
pub const LN_2: u64 = 693_147_180_560;

pub const LN_2_UNIT: u64 = 1_000_000_000_000;

pub const MAX_PROBES: u32 = 30;

/// Whether bit `b` of `word` is set.
pub open spec fn word_bit(word: u64, b: u64) -> bool {
    (word >> b) & 1 == 1
}

/// The position of probe `i`: a walk that starts at the lower half of the hash
/// and advances by its upper half, made odd.
pub open spec fn probe_position(hash: u64, i: int, num_bits: u64) -> int {
    ((hash & 0xffff_ffff) + i * ((hash >> 32) | 1)) % (num_bits as int)
}

/// All positions that belong to `hash`.
pub open spec fn probe_set(hash: u64, num_bits: u64, num_probes: u32) -> Set<int> {
    Set::new(|p: int| exists|i: int| 0 <= i < num_probes && p == #[trigger] probe_position(hash, i, num_bits))
}

/// The bits of `words` hold the position of probe `i`.
pub open spec fn reaches(words: Seq<u64>, hash: u64, num_bits: u64, i: int) -> bool {
    num_bits > 0 && probe_position(hash, i, num_bits) < 64 * words.len()
}

/// What the probes from `i` on answer in turn, where those before it were all
/// set: the first position that is not set decides. There is no answer where a
/// position is reached that `words` do not hold.
pub open spec fn probed(
    words: Seq<u64>,
    hash: u64,
    num_bits: u64,
    num_probes: u32,
    i: int,
) -> Option<bool>
    decreases num_probes - i,
{
    if i >= num_probes {
        Some(true)
    } else if !reaches(words, hash, num_bits, i) {
        None
    } else if !word_ones(words).contains(probe_position(hash, i, num_bits)) {
        Some(false)
    } else {
        probed(words, hash, num_bits, num_probes, i + 1)
    }
}

/// `x * ln 2`, rounded to the nearest integer.
pub open spec fn rounded_ln2_multiple(x: nat) -> nat {
    (2 * x * LN_2 as nat + LN_2_UNIT as nat) / (2 * LN_2_UNIT as nat)
}

/// The number of probes for a filter with this many bits per key.
pub open spec fn probes_for(bits_per_key: nat) -> nat {
    let rounded = rounded_ln2_multiple(bits_per_key);
    if rounded < 1 {
        1
    } else if rounded > MAX_PROBES {
        MAX_PROBES as nat
    } else {
        rounded
    }
}

/// The number of words in a filter for this many keys: at least one bit per
/// requested bit, at least one word.
pub open spec fn words_for(num_keys: nat, bits_per_key: nat) -> nat {
    let bits = num_keys * bits_per_key;
    if bits <= 64 {
        1
    } else {
        (bits + 63) / 64
    }
}

/// `words` with the bit at position `p` set.
pub open spec fn with_bit(words: Seq<u64>, p: int) -> Seq<u64> {
    words.update(p / 64, words[p / 64] | (1u64 << ((p % 64) as u64)))
}

/// `words` with the first `n` positions of `hash` set.
pub open spec fn with_probes(words: Seq<u64>, hash: u64, num_bits: u64, n: nat) -> Seq<u64>
    decreases n,
{
    if n == 0 {
        words
    } else {
        with_bit(
            with_probes(words, hash, num_bits, (n - 1) as nat),
            probe_position(hash, n - 1, num_bits),
        )
    }
}

/// The set positions of a filter after `hashes` have been inserted in turn.
pub open spec fn after_inserts(
    ones: Set<int>,
    hashes: Seq<u64>,
    num_bits: u64,
    num_probes: u32,
) -> Set<int>
    decreases hashes.len(),
{
    if hashes.len() == 0 {
        ones
    } else {
        after_inserts(ones, hashes.drop_last(), num_bits, num_probes).union(
            probe_set(hashes.last(), num_bits, num_probes),
        )
    }
}

pub struct BloomFilter {
    bits: Vec<u64>,
    num_bits: u64,
    num_probes: u32,
}

impl BloomFilter {
    /// The words that hold the bits.
    pub closed spec fn spec_words(&self) -> Seq<u64> {
        self.bits@
    }

    /// The size of the bit array.
    pub closed spec fn spec_num_bits(&self) -> u64 {
        self.num_bits
    }

    /// How many positions belong to one hash.
    pub closed spec fn spec_num_probes(&self) -> u32 {
        self.num_probes
    }

    /// The positions that are set.
    pub open spec fn ones(&self) -> Set<int> {
        word_ones(self.spec_words())
    }

    /// Every probe falls on a word.
    pub open spec fn well_formed(&self) -> bool {
        0 < self.spec_num_bits() <= 64 * self.spec_words().len()
    }

    /// The filter's answer for `hash`.
    pub open spec fn answers(&self, hash: u64) -> bool {
        probe_set(hash, self.spec_num_bits(), self.spec_num_probes()).subset_of(self.ones())
    }

    /// What asking for `hash` leads to.
    pub open spec fn spec_check(&self, hash: u64) -> Option<bool> {
        probed(self.spec_words(), hash, self.spec_num_bits(), self.spec_num_probes(), 0)
    }

    /// Every probe for `hash` falls on a word.
    pub open spec fn covers(&self, hash: u64) -> bool {
        forall|i: int|
            0 <= i < self.spec_num_probes() ==> #[trigger] reaches(
                self.spec_words(),
                hash,
                self.spec_num_bits(),
                i,
            )
    }

    /// An empty filter for `num_keys` keys.
    pub fn new(num_keys: usize, bits_per_key: usize) -> (r: Self)
        requires
            num_keys * bits_per_key <= usize::MAX - 63,
        ensures
            r.well_formed(),
            r.spec_words() == Seq::new(words_for(num_keys as nat, bits_per_key as nat), |i: int| 0u64),
            r.spec_num_bits() == 64 * words_for(num_keys as nat, bits_per_key as nat),
            r.spec_num_probes() == probes_for(bits_per_key as nat),
            r.ones() == Set::<int>::empty(),
    {
        let asked: usize = num_keys * bits_per_key;
        let requested: usize = if asked < 64 {
            64
        } else {
            asked
        };
        let words: usize = (requested + 63) / 64;
        let num_bits: u64 = (words * 64) as u64;
        let num_probes: u32 = probe_count(bits_per_key);
        let bits: Vec<u64> = vec![0u64;words];
        assert(bits@ =~= Seq::new(words as nat, |i: int| 0u64));
        let r = Self { bits, num_bits, num_probes };
        proof {
            assert forall|p: int| !r.ones().contains(p) by {
                let b = (p % 64) as u64;
                assert((0u64 >> b) & 1 == 0) by (bit_vector);
            }
            assert(r.ones() =~= Set::empty());
        }
        r
    }

    /// A filter with parts that were stored.
    pub fn from_parts(bits: Vec<u64>, num_bits: u64, num_probes: u32) -> (r: Self)
        ensures
            r.spec_words() == bits@,
            r.spec_num_bits() == num_bits,
            r.spec_num_probes() == num_probes,
    {
        Self { bits, num_bits, num_probes }
    }

    pub fn num_bits(&self) -> (r: u64)
        ensures
            r == self.spec_num_bits(),
    {
        self.num_bits
    }

    pub fn num_probes(&self) -> (r: u32)
        ensures
            r == self.spec_num_probes(),
    {
        self.num_probes
    }

    pub fn words(&self) -> (r: &[u64])
        ensures
            r@ == self.spec_words(),
    {
        self.bits.as_slice()
    }

    /// Adds `hash`.
    pub fn insert(&mut self, hash: u64)
        requires
            old(self).well_formed() || old(self).covers(hash),
        ensures
            old(self).well_formed() ==> final(self).well_formed(),
            final(self).spec_num_bits() == old(self).spec_num_bits(),
            final(self).spec_num_probes() == old(self).spec_num_probes(),
            final(self).spec_words() == with_probes(
                old(self).spec_words(),
                hash,
                old(self).spec_num_bits(),
                old(self).spec_num_probes() as nat,
            ),
            final(self).spec_words().len() == old(self).spec_words().len(),
            final(self).ones() == old(self).ones().union(
                probe_set(hash, old(self).spec_num_bits(), old(self).spec_num_probes()),
            ),
            final(self).answers(hash),
    {
        proof {
            self.lemma_covers(hash);
        }
        let mut i: u32 = 0;
        while i < self.num_probes
            invariant
                old(self).covers(hash),
                i <= self.num_probes,
                self.num_bits == old(self).num_bits,
                self.num_probes == old(self).num_probes,
                self.bits@.len() == old(self).bits@.len(),
                self.bits@ == with_probes(old(self).bits@, hash, self.num_bits, i as nat),
                self.ones() =~= old(self).ones().union(probe_set(hash, self.num_bits, i)),
            decreases self.num_probes - i,
        {
            assert(reaches(old(self).spec_words(), hash, old(self).spec_num_bits(), i as int));
            let bit: u64 = self.probe(hash, i);
            assert(bit / 64 < self.bits.len());
            let word: usize = (bit / 64) as usize;
            let b: u64 = bit % 64;
            let ghost before = self.bits@;
            let old_word: u64 = self.bits[word];
            let new_word: u64 = old_word | (1u64 << b);
            self.bits.set(word, new_word);
            proof {
                assert(self.bits@ =~= with_bit(before, bit as int));
                lemma_set_bit(before, bit as int, self.bits@);
                assert forall|p: int|
                    self.ones().contains(p) <==> old(self).ones().union(
                        probe_set(hash, self.num_bits, (i + 1) as u32),
                    ).contains(p) by {
                    if probe_set(hash, self.num_bits, (i + 1) as u32).contains(p)
                        && !probe_set(hash, self.num_bits, i).contains(p) {
                        let j = choose|j: int|
                            0 <= j < i + 1 && p == #[trigger] probe_position(hash, j, self.num_bits);
                        assert(j == i);
                    }
                    if probe_set(hash, self.num_bits, i).contains(p) {
                        let j = choose|j: int|
                            0 <= j < i && p == #[trigger] probe_position(hash, j, self.num_bits);
                        assert(0 <= j < i + 1);
                    }
                    assert(probe_position(hash, i as int, self.num_bits) == bit);
                }
            }
            i = i + 1;
        }
    }

    /// Whether `hash` may have been inserted. Parts read from a damaged file may
    /// not fit together: there is no answer where a probe falls behind the words.
    pub fn check(&self, hash: u64) -> (r: Option<bool>)
        ensures
            r == self.spec_check(hash),
    {
        let mut i: u32 = 0;
        while i < self.num_probes
            invariant
                i <= self.num_probes,
                self.spec_check(hash) == probed(
                    self.bits@,
                    hash,
                    self.num_bits,
                    self.num_probes,
                    i as int,
                ),
            decreases self.num_probes - i,
        {
            if self.num_bits == 0 {
                return None;
            }
            let bit: u64 = self.probe(hash, i);
            if bit / 64 >= self.bits.len() as u64 {
                return None;
            }
            assert(bit / 64 < self.bits.len());
            let word: u64 = self.bits[(bit / 64) as usize];
            proof {
                assert(bit as int / 64 == (bit / 64) as int);
                assert((bit as int % 64) as u64 == bit % 64);
                assert(self.ones().contains(bit as int) == word_bit(word, bit % 64));
            }
            if (word >> (bit % 64)) & 1 != 1 {
                return Some(false);
            }
            i = i + 1;
        }
        Some(true)
    }

    /// Whether `hash` may have been inserted.
    pub fn contains(&self, hash: u64) -> (r: bool)
        requires
            self.well_formed() || self.spec_check(hash) is Some,
        ensures
            self.spec_check(hash) == Some(r),
            self.covers(hash) ==> r == self.answers(hash),
            self.well_formed() ==> r == self.answers(hash),
    {
        proof {
            self.lemma_covers(hash);
            if self.covers(hash) {
                lemma_probed(self.bits@, hash, self.num_bits, self.num_probes, 0);
            }
        }
        match self.check(hash) {
            Some(r) => r,
            None => false,
        }
    }

    /// Every probe of a well-formed filter falls on a word.
    proof fn lemma_covers(&self, hash: u64)
        ensures
            self.well_formed() ==> self.covers(hash),
    {
        if self.well_formed() {
            assert forall|i: int| 0 <= i < self.spec_num_probes() implies #[trigger] reaches(
                self.spec_words(),
                hash,
                self.spec_num_bits(),
                i,
            ) by {
                lemma_reaches(self.spec_words(), hash, self.spec_num_bits(), i);
            }
        }
    }

    /// The position of probe `i`.
    fn probe(&self, hash: u64, i: u32) -> (r: u64)
        requires
            self.num_bits > 0,
        ensures
            r == probe_position(hash, i as int, self.num_bits),
            r < self.num_bits,
    {
        let start: u64 = hash & 0xffff_ffff;
        let stride: u64 = (hash >> 32) | 1;
        proof {
            assert(hash & 0xffff_ffff <= 0xffff_ffff) by (bit_vector);
            assert((hash >> 32) | 1 <= 0xffff_ffff) by (bit_vector);
            assert(i as u64 * stride <= 0xffff_ffff * 0xffff_ffff) by (nonlinear_arith)
                requires
                    0 <= i <= 0xffff_ffff,
                    0 <= stride <= 0xffff_ffff,
            ;
        }
        (start + i as u64 * stride) % self.num_bits
    }
}

/// The set positions of a bit array.
pub open spec fn word_ones(words: Seq<u64>) -> Set<int> {
    Set::new(
        |p: int| 0 <= p < 64 * words.len() && word_bit(words[p / 64], (p % 64) as u64),
    )
}

pub proof fn lemma_reaches(words: Seq<u64>, hash: u64, num_bits: u64, i: int)
    requires
        0 < num_bits <= 64 * words.len(),
    ensures
        reaches(words, hash, num_bits, i),
{
    vstd::arithmetic::div_mod::lemma_mod_bound(
        (hash & 0xffff_ffff) + i * ((hash >> 32) | 1),
        num_bits as int,
    );
}

/// Where every probe falls on a word, the answer is whether all positions from
/// `i` on are set.
pub proof fn lemma_probed(words: Seq<u64>, hash: u64, num_bits: u64, num_probes: u32, i: int)
    requires
        0 <= i,
        forall|j: int| 0 <= j < num_probes ==> #[trigger] reaches(words, hash, num_bits, j),
        forall|j: int|
            0 <= j < i ==> word_ones(words).contains(#[trigger] probe_position(hash, j, num_bits)),
    ensures
        probed(words, hash, num_bits, num_probes, i) == Some(
            probe_set(hash, num_bits, num_probes).subset_of(word_ones(words)),
        ),
    decreases num_probes - i,
{
    let all = probe_set(hash, num_bits, num_probes);
    if i < num_probes {
        assert(reaches(words, hash, num_bits, i));
        let p = probe_position(hash, i, num_bits);
        assert(all.contains(p));
        if word_ones(words).contains(p) {
            lemma_probed(words, hash, num_bits, num_probes, i + 1);
        }
    } else {
        assert forall|p: int| all.contains(p) implies word_ones(words).contains(p) by {
            let j = choose|j: int|
                0 <= j < num_probes && p == #[trigger] probe_position(hash, j, num_bits);
        }
    }
}

proof fn lemma_set_bit(before: Seq<u64>, bit: int, after: Seq<u64>)
    requires
        0 <= bit < 64 * before.len(),
        after == with_bit(before, bit),
    ensures
        word_ones(after) == word_ones(before).insert(bit),
{
    let w = before[bit / 64];
    let b = (bit % 64) as u64;
    assert forall|p: int| word_ones(after).contains(p) <==> word_ones(before).insert(bit).contains(
        p,
    ) by {
        let c = (p % 64) as u64;
        if 0 <= p < 64 * before.len() && p / 64 == bit / 64 {
            assert(b < 64 && c < 64 ==> ((((w | (1u64 << b)) >> c) & 1 == 1) <==> (b == c || (w >> c)
                & 1 == 1))) by (bit_vector);
            assert(p == bit <==> b == c);
        }
    }
    assert(word_ones(after) =~= word_ones(before).insert(bit));
}

/// Setting the first `n` positions of a hash adds exactly those.
pub proof fn lemma_with_probes(words: Seq<u64>, hash: u64, num_bits: u64, n: nat)
    requires
        0 < num_bits <= 64 * words.len(),
        n <= u32::MAX,
    ensures
        with_probes(words, hash, num_bits, n).len() == words.len(),
        word_ones(with_probes(words, hash, num_bits, n)) == word_ones(words).union(
            probe_set(hash, num_bits, n as u32),
        ),
    decreases n,
{
    if n == 0 {
        assert(word_ones(words) =~= word_ones(words).union(probe_set(hash, num_bits, 0)));
    } else {
        let m = (n - 1) as nat;
        lemma_with_probes(words, hash, num_bits, m);
        let before = with_probes(words, hash, num_bits, m);
        let p = probe_position(hash, m as int, num_bits);
        assert(0 <= p < num_bits) by {
            vstd::arithmetic::div_mod::lemma_mod_bound(
                (hash & 0xffff_ffff) + m * ((hash >> 32) | 1),
                num_bits as int,
            );
        }
        lemma_set_bit(before, p, with_bit(before, p));
        let small = probe_set(hash, num_bits, m as u32);
        let large = probe_set(hash, num_bits, n as u32);
        assert forall|q: int| large.contains(q) <==> small.contains(q) || q == p by {
            if large.contains(q) && q != p {
                let j = choose|j: int| 0 <= j < n && q == #[trigger] probe_position(hash, j, num_bits);
                assert(j != m);
            }
            if small.contains(q) {
                let j = choose|j: int| 0 <= j < m && q == #[trigger] probe_position(hash, j, num_bits);
                assert(0 <= j < n);
            }
        }
        assert(word_ones(with_probes(words, hash, num_bits, n)) =~= word_ones(words).union(large));
    }
}

/// `round(bits_per_key * ln 2)`, at least 1 and at most 30.
fn probe_count(bits_per_key: usize) -> (r: u32)
    ensures
        r == probes_for(bits_per_key as nat),
{
    if bits_per_key >= 64 {
        proof {
            assert(rounded_ln2_multiple(bits_per_key as nat) >= 30) by {
                assert(2 * bits_per_key as nat * LN_2 as nat >= 2 * 64 * LN_2 as nat) by (nonlinear_arith)
                    requires
                        bits_per_key >= 64,
                ;
            }
        }
        return MAX_PROBES;
    }
    let rounded: u64 = (2 * bits_per_key as u64 * LN_2 + LN_2_UNIT) / (2 * LN_2_UNIT);
    if rounded < 1 {
        1
    } else if rounded > MAX_PROBES as u64 {
        MAX_PROBES
    } else {
        rounded as u32
    }
}

/// No false negatives: whatever was set before and whatever is inserted after,
/// every inserted hash is found.
pub proof fn inserted_hashes_are_always_found(
    ones: Set<int>,
    hashes: Seq<u64>,
    num_bits: u64,
    num_probes: u32,
    i: int,
)
    requires
        0 <= i < hashes.len(),
    ensures
        probe_set(hashes[i], num_bits, num_probes).subset_of(
            after_inserts(ones, hashes, num_bits, num_probes),
        ),
    decreases hashes.len(),
{
    if i < hashes.len() - 1 {
        inserted_hashes_are_always_found(ones, hashes.drop_last(), num_bits, num_probes, i);
    }
}

/// A filter with nothing set answers no to every hash.
pub proof fn empty_filter_finds_nothing(filter: BloomFilter, hash: u64)
    requires
        filter.ones() == Set::<int>::empty(),
        filter.spec_num_probes() >= 1,
    ensures
        !filter.answers(hash),
{
    let p = probe_position(hash, 0, filter.spec_num_bits());
    assert(probe_set(hash, filter.spec_num_bits(), filter.spec_num_probes()).contains(p));
}

/// A filter has at least as many bits as its keys were promised, in whole words,
/// and not a word more than that takes; and never none.
pub proof fn every_key_has_its_bits(num_keys: nat, bits_per_key: nat)
    ensures
        words_for(num_keys, bits_per_key) >= 1,
        num_keys * bits_per_key <= 64 * words_for(num_keys, bits_per_key),
        words_for(num_keys, bits_per_key) > 1 ==> 64 * (words_for(num_keys, bits_per_key) - 1)
            < num_keys * bits_per_key,
{
}

/// The number of probes is the whole number nearest to ln 2 times the bits of a
/// key, where that lies between 1 and 30, and the nearer of those two otherwise.
pub proof fn probes_are_nearest_to_the_best(bits_per_key: nat)
    ensures
        1 <= probes_for(bits_per_key) <= 30,
        1 < probes_for(bits_per_key) ==> 2 * 693_147_180_560 * bits_per_key >= (2 * probes_for(
            bits_per_key,
        ) - 1) * 1_000_000_000_000,
        probes_for(bits_per_key) < 30 ==> 2 * 693_147_180_560 * bits_per_key < (2 * probes_for(
            bits_per_key,
        ) + 1) * 1_000_000_000_000,
{
    let x = bits_per_key;
    let t = 2 * x * LN_2 as nat + LN_2_UNIT as nat;
    let l = LN_2 as nat;
    assert(2 * x * l == 2 * 693_147_180_560 * x) by (nonlinear_arith)
        requires
            l == 693_147_180_560,
    ;
    let r = rounded_ln2_multiple(x);
    assert(r == t / 2_000_000_000_000);
    assert(2_000_000_000_000 * r <= t < 2_000_000_000_000 * (r + 1));
}

/// The positions of a hash: its lower half, and then on by its upper half, made
/// odd, as far as there are probes, all within the bits of the filter.
pub proof fn probes_walk_by_the_upper_half(low: u32, high: u32, i: nat, num_bits: u64)
    requires
        num_bits > 0,
    ensures
        ({
            let hash = (low + 0x1_0000_0000 * high) as u64;
            let stride = if high % 2 == 0 {
                high + 1
            } else {
                high as int
            };
            &&& probe_position(hash, i as int, num_bits) == (low + i * stride) % (num_bits as int)
            &&& 0 <= probe_position(hash, i as int, num_bits) < num_bits
        }),
{
    let hash = (low + 0x1_0000_0000 * high) as u64;
    assert(hash == 0x1_0000_0000u64 * (high as u64) + (low as u64));
    let h = high as u64;
    let l = low as u64;
    assert(hash & 0xffff_ffff == l && hash >> 32 == h) by (bit_vector)
        requires
            hash == 0x1_0000_0000u64 * h + l,
            h <= 0xffff_ffff,
            l <= 0xffff_ffff,
    ;
    assert((h | 1) == (if h % 2 == 0 {
        (h + 1) as u64
    } else {
        h
    })) by (bit_vector)
        requires
            h <= 0xffff_ffff,
    ;
    vstd::arithmetic::div_mod::lemma_mod_bound(
        (hash & 0xffff_ffff) + i * ((hash >> 32) | 1),
        num_bits as int,
    );
}

/// Setting a position sets one bit of one word, and leaves all others.
pub proof fn a_position_is_one_bit_of_one_word(words: Seq<u64>, word: int, bit: u64, w: int)
    requires
        0 <= word < words.len(),
        bit < 64,
        0 <= w < words.len(),
    ensures
        with_bit(words, 64 * word + bit).len() == words.len(),
        with_bit(words, 64 * word + bit)[w] == (if w == word {
            words[word] | (1u64 << bit)
        } else {
            words[w]
        }),
        word_ones(words).contains(64 * word + bit) == ((words[word] >> bit) & 1 == 1),
{
    let p = 64 * word + bit;
    assert(p / 64 == word && p % 64 == bit);
}

/// The answer is yes exactly where every position of the hash is set.
pub proof fn a_filter_says_yes_where_all_positions_are_set(filter: BloomFilter, hash: u64)
    requires
        filter.well_formed(),
    ensures
        filter.spec_check(hash) == Some(
            forall|i: int|
                0 <= i < filter.spec_num_probes() ==> filter.ones().contains(
                    #[trigger] probe_position(hash, i, filter.spec_num_bits()),
                ),
        ),
{
    let bits = filter.spec_num_bits();
    let probes = filter.spec_num_probes();
    filter.lemma_covers(hash);
    lemma_probed(filter.spec_words(), hash, bits, probes, 0);
    let all = probe_set(hash, bits, probes);
    if filter.answers(hash) {
        assert forall|i: int| 0 <= i < probes implies filter.ones().contains(
            #[trigger] probe_position(hash, i, bits),
        ) by {
            assert(all.contains(probe_position(hash, i, bits)));
        }
    } else {
        let p = choose|p: int| all.contains(p) && !filter.ones().contains(p);
        let i = choose|i: int| 0 <= i < probes && p == #[trigger] probe_position(hash, i, bits);
        assert(!filter.ones().contains(probe_position(hash, i, bits)));
    }
}

} // verus!
