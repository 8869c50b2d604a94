//! Little-endian integers and length-prefixed byte strings, the two building
//! blocks of every format the store writes to disk.
use vstd::prelude::*;

verus! {

/// The `width` bytes of `n`, least significant first.
pub open spec fn le_bytes(n: nat, width: nat) -> Seq<u8>
    decreases width,
{
    if width == 0 {
        Seq::empty()
    } else {
        seq![(n % 256) as u8] + le_bytes(n / 256, (width - 1) as nat)
    }
}

/// The number whose little-endian bytes are `s`.
pub open spec fn le_value(s: Seq<u8>) -> nat
    decreases s.len(),
{
    if s.len() == 0 {
        0
    } else {
        s[0] as nat + 256 * le_value(s.skip(1))
    }
}

/// How many numbers fit in `width` bytes.
pub open spec fn pow256(width: nat) -> nat
    decreases width,
{
    if width == 0 {
        1
    } else {
        256 * pow256((width - 1) as nat)
    }
}

/// `s` behind its own length as four little-endian bytes.
pub open spec fn prefixed(s: Seq<u8>) -> Seq<u8> {
    le_bytes(s.len(), 4) + s
}

/// The length-prefixed string that starts at `at` in `s` and the position
/// behind it, or nothing where `s` ends first.
pub open spec fn prefixed_at(s: Seq<u8>, at: int) -> Option<(Seq<u8>, int)> {
    if at < 0 || at + 4 > s.len() {
        None
    } else {
        let len = le_value(s.subrange(at, at + 4)) as int;
        if at + 4 + len > s.len() {
            None
        } else {
            Some((s.subrange(at + 4, at + 4 + len), at + 4 + len))
        }
    }
}

pub proof fn lemma_pow256_values()
    ensures
        pow256(4) == 0x1_0000_0000,
        pow256(8) == 0x1_0000_0000_0000_0000,
{
    reveal_with_fuel(pow256, 9);
}

pub proof fn lemma_le_bytes_len(n: nat, width: nat)
    ensures
        le_bytes(n, width).len() == width,
    decreases width,
{
    if width > 0 {
        lemma_le_bytes_len(n / 256, (width - 1) as nat);
    }
}

/// Decoding undoes encoding, for every number that fits.
pub proof fn lemma_le_roundtrip(n: nat, width: nat)
    requires
        n < pow256(width),
    ensures
        le_value(le_bytes(n, width)) == n,
        le_bytes(n, width).len() == width,
    decreases width,
{
    lemma_le_bytes_len(n, width);
    if width > 0 {
        let rest = le_bytes(n / 256, (width - 1) as nat);
        lemma_le_roundtrip(n / 256, (width - 1) as nat);
        assert(le_bytes(n, width).skip(1) =~= rest);
    }
}

pub proof fn lemma_le_value_bound(s: Seq<u8>)
    ensures
        le_value(s) < pow256(s.len()),
    decreases s.len(),
{
    if s.len() > 0 {
        lemma_le_value_bound(s.skip(1));
    }
}

/// A prefixed string is read back wherever it stands.
pub proof fn lemma_prefixed_roundtrip(before: Seq<u8>, s: Seq<u8>, after: Seq<u8>)
    requires
        s.len() <= u32::MAX,
    ensures
        prefixed(s).len() == 4 + s.len(),
        prefixed_at(before + prefixed(s) + after, before.len() as int) == Some(
            (s, (before.len() + 4 + s.len()) as int),
        ),
{
    let all = before + prefixed(s) + after;
    let at = before.len() as int;
    lemma_pow256_values();
    lemma_le_roundtrip(s.len(), 4);
    assert(all.subrange(at, at + 4) =~= le_bytes(s.len(), 4));
    assert(all.subrange(at + 4, at + 4 + s.len()) =~= s);
}

/// Appends `n` as four little-endian bytes.
pub fn put_u32(out: &mut Vec<u8>, n: u32)
    ensures
        final(out)@ == old(out)@ + le_bytes(n as nat, 4),
{
    out.push((n % 256) as u8);
    out.push((n / 256 % 256) as u8);
    out.push((n / 0x1_0000 % 256) as u8);
    out.push((n / 0x100_0000) as u8);
    proof {
        reveal_with_fuel(le_bytes, 5);
        assert(out@ =~= old(out)@ + le_bytes(n as nat, 4));
    }
}

/// Appends `n` as eight little-endian bytes.
pub fn put_u64(out: &mut Vec<u8>, n: u64)
    ensures
        final(out)@ == old(out)@ + le_bytes(n as nat, 8),
{
    let mut rest: u64 = n;
    let mut i: usize = 0;
    while i < 8
        invariant
            i <= 8,
            out@ + le_bytes(rest as nat, (8 - i) as nat) =~= old(out)@ + le_bytes(n as nat, 8),
        decreases 8 - i,
    {
        let ghost before = out@;
        out.push((rest % 256) as u8);
        proof {
            assert(before + le_bytes(rest as nat, (8 - i) as nat) =~= out@ + le_bytes(
                (rest / 256) as nat,
                (7 - i) as nat,
            ));
        }
        rest = rest / 256;
        i = i + 1;
    }
    assert(out@ =~= out@ + le_bytes(rest as nat, 0));
}

/// Appends all of `bytes`.
pub fn put_bytes(out: &mut Vec<u8>, bytes: &[u8])
    ensures
        final(out)@ == old(out)@ + bytes@,
{
    out.extend_from_slice(bytes);
    assert(out@ =~= old(out)@ + bytes@);
}

/// Appends `bytes` behind their length.
pub fn put_prefixed(out: &mut Vec<u8>, bytes: &[u8])
    requires
        bytes@.len() <= u32::MAX,
    ensures
        final(out)@ == old(out)@ + prefixed(bytes@),
{
    put_u32(out, bytes.len() as u32);
    put_bytes(out, bytes);
    assert(out@ =~= old(out)@ + prefixed(bytes@));
}

/// The four-byte number at `at`.
pub fn get_u32(s: &[u8], at: usize) -> (n: u32)
    requires
        at + 4 <= s@.len(),
    ensures
        n == le_value(s@.subrange(at as int, at + 4)),
{
    let b0: u32 = s[at] as u32;
    let b1: u32 = s[at + 1] as u32;
    let b2: u32 = s[at + 2] as u32;
    let b3: u32 = s[at + 3] as u32;
    proof {
        let f = s@.subrange(at as int, at + 4);
        reveal_with_fuel(le_value, 5);
        assert(f.skip(1).skip(1) =~= f.skip(2));
        assert(f.skip(2).skip(1) =~= f.skip(3));
        assert(f.skip(3).skip(1) =~= f.skip(4));
    }
    b0 + 256 * b1 + 0x1_0000 * b2 + 0x100_0000 * b3
}

/// The eight-byte number at `at`.
pub fn get_u64(s: &[u8], at: usize) -> (n: u64)
    requires
        at + 8 <= s@.len(),
    ensures
        n == le_value(s@.subrange(at as int, at + 8)),
{
    let mut n: u64 = 0;
    let mut i: usize = 8;
    let end: usize = s.len();
    let ghost f = s@.subrange(at as int, at + 8);
    assert(f.skip(8) =~= Seq::<u8>::empty());
    while i > 0
        invariant
            i <= 8,
            at + 8 <= end == s@.len(),
            f == s@.subrange(at as int, at + 8),
            n == le_value(f.skip(i as int)),
        decreases i,
    {
        i = i - 1;
        proof {
            assert(f.skip(i as int).skip(1) =~= f.skip(i + 1));
            lemma_le_value_bound(f.skip(i as int));
            lemma_pow256_le((8 - i) as nat, 8);
            lemma_pow256_values();
        }
        n = s[at + i] as u64 + 256 * n;
    }
    assert(f.skip(0) =~= f);
    n
}

proof fn lemma_pow256_le(a: nat, b: nat)
    requires
        a <= b,
    ensures
        pow256(a) <= pow256(b),
    decreases b,
{
    if a < b {
        lemma_pow256_le(a, (b - 1) as nat);
    }
}

/// A copy of `s[from..to]`.
pub fn copy_range(s: &[u8], from: usize, to: usize) -> (out: Vec<u8>)
    requires
        from <= to <= s@.len(),
    ensures
        out@ == s@.subrange(from as int, to as int),
{
    vstd::slice::slice_to_vec(vstd::slice::slice_subrange(s, from, to))
}

/// Reads the length-prefixed string at `at`: the string and the position
/// behind it, or nothing where the bytes end first.
pub fn get_prefixed(s: &[u8], at: usize) -> (r: Option<(Vec<u8>, usize)>)
    requires
        at <= s@.len(),
    ensures
        match r {
            Some((bytes, next)) => prefixed_at(s@, at as int) == Some((bytes@, next as int)),
            None => prefixed_at(s@, at as int) is None,
        },
{
    if s.len() - at < 4 {
        return None;
    }
    let len: usize = get_u32(s, at) as usize;
    if s.len() - at - 4 < len {
        return None;
    }
    Some((copy_range(s, at + 4, at + 4 + len), at + 4 + len))
}

// --------------------------------------------------------------------- laws

/// Four bytes of a number, the lowest first.
pub proof fn four_bytes_lowest_first(n: nat)
    requires
        n < 0x1_0000_0000,
    ensures
        le_bytes(n, 4) == seq![
            (n % 0x100) as u8,
            (n / 0x100 % 0x100) as u8,
            (n / 0x1_0000 % 0x100) as u8,
            (n / 0x100_0000) as u8,
        ],
{
    reveal_with_fuel(le_bytes, 5);
    assert(le_bytes(n, 4) =~= seq![
        (n % 0x100) as u8,
        (n / 0x100 % 0x100) as u8,
        (n / 0x1_0000 % 0x100) as u8,
        (n / 0x100_0000) as u8,
    ]);
}

/// Eight bytes of a number: the lower half, and then the upper half.
pub proof fn eight_bytes_lowest_first(low: nat, high: nat)
    requires
        low < 0x1_0000_0000,
        high < 0x1_0000_0000,
    ensures
        le_bytes(low + 0x1_0000_0000 * high, 8) == le_bytes(low, 4) + le_bytes(high, 4),
{
    lemma_pow256_values();
    lemma_halves(low, high, 4, 4);
}

proof fn lemma_halves(low: nat, high: nat, k: nat, width: nat)
    requires
        low < pow256(k),
    ensures
        le_bytes(low + pow256(k) * high, k + width) == le_bytes(low, k) + le_bytes(high, width),
    decreases k,
{
    let n = low + pow256(k) * high;
    if k == 0 {
        assert(pow256(k) * high == high) by (nonlinear_arith)
            requires
                pow256(k) == 1,
        ;
        assert(le_bytes(low, 0) + le_bytes(high, width) =~= le_bytes(high, width));
    } else {
        let j = (k - 1) as nat;
        let q = pow256(j) * high;
        assert(pow256(k) * high == 256 * q) by (nonlinear_arith)
            requires
                pow256(k) == 256 * pow256(j),
                q == pow256(j) * high,
        ;
        assert(n / 256 == low / 256 + q);
        assert(n % 256 == low % 256);
        lemma_halves(low / 256, high, j, width);
        assert(le_bytes(n, k + width) =~= le_bytes(low, k) + le_bytes(high, width));
    }
}

/// Bytes as a number: the first counts once, the second 256 times, and so on.
pub proof fn bytes_count_by_their_place(a: u8, b: u8, c: u8, d: u8, more: Seq<u8>)
    ensures
        le_value(seq![a, b, c, d]) == a + 0x100 * b + 0x1_0000 * c + 0x100_0000 * d,
        le_value(seq![a, b, c, d] + more) == le_value(seq![a, b, c, d]) + 0x1_0000_0000 * le_value(
            more,
        ),
{
    let s = seq![a, b, c, d];
    let t = s + more;
    reveal_with_fuel(le_value, 5);
    assert(s.skip(1).skip(1) =~= s.skip(2));
    assert(s.skip(2).skip(1) =~= s.skip(3));
    assert(s.skip(3).skip(1) =~= s.skip(4));
    assert(t.skip(1).skip(1) =~= t.skip(2));
    assert(t.skip(2).skip(1) =~= t.skip(3));
    assert(t.skip(3).skip(1) =~= t.skip(4));
    assert(t.skip(4) =~= more);
}

/// A string stands behind its length, whole, and is read back as it is wherever
/// it stands; where the bytes end before it does, nothing is read.
pub proof fn strings_stand_behind_their_length(before: Seq<u8>, s: Seq<u8>, after: Seq<u8>, n: int)
    requires
        s.len() <= u32::MAX,
        0 <= n < s.len() + 4,
    ensures
        prefixed(s) == le_bytes(s.len(), 4) + s,
        prefixed_at(before + (le_bytes(s.len(), 4) + s) + after, before.len() as int) == Some(
            (s, (before.len() + 4 + s.len()) as int),
        ),
        prefixed_at(before + (le_bytes(s.len(), 4) + s).take(n), before.len() as int) is None,
{
    lemma_prefixed_roundtrip(before, s, after);
    let cut = before + prefixed(s).take(n);
    let at = before.len() as int;
    lemma_pow256_values();
    lemma_le_roundtrip(s.len(), 4);
    if n >= 4 {
        assert(cut.subrange(at, at + 4) =~= le_bytes(s.len(), 4));
    }
}

} // verus!
