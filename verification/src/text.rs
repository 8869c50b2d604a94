//! Numbers as text, and the few rules about bytes that are text.
use vstd::arithmetic::div_mod::*;
use vstd::arithmetic::power::*;
use vstd::prelude::*;

verus! {

pub const DIGIT_ZERO: u8 = 48;

pub const PLUS: u8 = 43;

pub const MINUS: u8 = 45;

/// The bytes of a text.
pub open spec fn utf8(chars: Seq<char>) -> Seq<u8> {
    vstd::utf8::encode_utf8(chars)
}

/// The text that bytes show as.
pub uninterp spec fn shown(bytes: Seq<u8>) -> Seq<char>;

/// `String::from_utf8_lossy`: the text depends on the bytes alone, and valid
/// UTF-8 shows as itself. What invalid bytes show as stays unsaid.
#[verifier::external_body]
pub(crate) fn show(bytes: &[u8]) -> (r: String)
    ensures
        r@ == shown(bytes@),
        vstd::utf8::valid_utf8(bytes@) ==> utf8(r@) == bytes@,
{
    String::from_utf8_lossy(bytes).into_owned()
}

pub open spec fn texts_view(ts: Seq<String>) -> Seq<Seq<char>> {
    Seq::new(ts.len(), |i: int| ts[i]@)
}

/// Whether two texts are the same.
pub fn same_text(a: &str, b: &str) -> (r: bool)
    ensures
        r == (a@ == b@),
{
    proof {
        vstd::utf8::encode_utf8_decode_utf8(a@);
        vstd::utf8::encode_utf8_decode_utf8(b@);
    }
    crate::order::same(a.as_bytes(), b.as_bytes())
}

/// A byte as a capital letter, where it is an ASCII letter.
pub open spec fn upper_byte(b: u8) -> u8 {
    if 97 <= b <= 122 {
        (b - 32) as u8
    } else {
        b
    }
}

/// Bytes with their ASCII letters as capitals.
pub open spec fn upper(s: Seq<u8>) -> Seq<u8> {
    Seq::new(s.len(), |i: int| upper_byte(s[i]))
}

/// Bytes with their ASCII letters as capitals.
pub fn to_upper(s: &[u8]) -> (r: Vec<u8>)
    ensures
        r@ == upper(s@),
{
    let mut r: Vec<u8> = Vec::new();
    let mut i: usize = 0;
    while i < s.len()
        invariant
            i <= s@.len(),
            r@ =~= upper(s@.take(i as int)),
        decreases s@.len() - i,
    {
        let b: u8 = s[i];
        if 97 <= b && b <= 122 {
            r.push(b - 32);
        } else {
            r.push(b);
        }
        i = i + 1;
    }
    assert(s@.take(i as int) =~= s@);
    r
}

pub open spec fn is_digit(b: u8) -> bool {
    48 <= b <= 57
}

pub open spec fn all_digits(s: Seq<u8>) -> bool {
    forall|i: int| 0 <= i < s.len() ==> is_digit(#[trigger] s[i])
}

/// `n` in decimal.
pub open spec fn decimal(n: nat) -> Seq<u8>
    decreases n,
{
    if n < 10 {
        seq![(48 + n) as u8]
    } else {
        decimal(n / 10).push((48 + n % 10) as u8)
    }
}

/// A number with its sign.
pub open spec fn signed_decimal(n: int) -> Seq<u8> {
    if n < 0 {
        seq![45u8] + decimal((-n) as nat)
    } else {
        decimal(n as nat)
    }
}

/// `n` zero bytes of text.
pub open spec fn zeros(n: nat) -> Seq<u8> {
    Seq::new(n, |i: int| 48u8)
}

/// `n` in decimal, filled up with leading zeros to `width` digits.
pub open spec fn padded(n: nat, width: nat) -> Seq<u8> {
    let d = decimal(n);
    if d.len() >= width {
        d
    } else {
        zeros((width - d.len()) as nat) + d
    }
}

/// The number that digits stand for.
pub open spec fn digits_value(s: Seq<u8>) -> nat
    decreases s.len(),
{
    if s.len() == 0 {
        0
    } else {
        10 * digits_value(s.drop_last()) + (s.last() - 48) as nat
    }
}

/// A non-negative number with an optional plus sign.
pub open spec fn unsigned_value(s: Seq<u8>) -> Option<nat> {
    let d = if s.len() > 0 && s[0] == PLUS {
        s.skip(1)
    } else {
        s
    };
    if d.len() > 0 && all_digits(d) {
        Some(digits_value(d))
    } else {
        None
    }
}

/// A number with an optional sign.
pub open spec fn signed_value(s: Seq<u8>) -> Option<int> {
    if s.len() > 0 && s[0] == MINUS {
        if s.len() > 1 && all_digits(s.skip(1)) {
            Some(-(digits_value(s.skip(1)) as int))
        } else {
            None
        }
    } else {
        match unsigned_value(s) {
            Some(n) => Some(n as int),
            None => None,
        }
    }
}

/// The number in `s`, where it is one that fits 64 bits without a sign.
pub open spec fn spec_parse_u64(s: Seq<u8>) -> Option<u64> {
    match unsigned_value(s) {
        Some(n) => if n <= u64::MAX {
            Some(n as u64)
        } else {
            None
        },
        None => None,
    }
}

/// The number in `s`, where it is one that fits 64 bits with a sign.
pub open spec fn spec_parse_i64(s: Seq<u8>) -> Option<i64> {
    match signed_value(s) {
        Some(n) => if i64::MIN <= n <= i64::MAX {
            Some(n as i64)
        } else {
            None
        },
        None => None,
    }
}

pub proof fn lemma_decimal(n: nat)
    ensures
        decimal(n).len() > 0,
        all_digits(decimal(n)),
        digits_value(decimal(n)) == n,
    decreases n,
{
    if n < 10 {
        reveal_with_fuel(digits_value, 2);
        assert(seq![(48 + n) as u8].drop_last() =~= Seq::<u8>::empty());
    } else {
        lemma_decimal(n / 10);
        assert(decimal(n).drop_last() =~= decimal(n / 10));
    }
}

pub proof fn lemma_digits_concat_zeros(k: nat, s: Seq<u8>)
    ensures
        digits_value(zeros(k) + s) == digits_value(s),
    decreases k, s.len(),
{
    if s.len() > 0 {
        lemma_digits_concat_zeros(k, s.drop_last());
        assert((zeros(k) + s).drop_last() =~= zeros(k) + s.drop_last());
    } else {
        assert(zeros(k) + s =~= zeros(k));
        if k > 0 {
            lemma_digits_concat_zeros((k - 1) as nat, s);
            assert(zeros(k).drop_last() =~= zeros((k - 1) as nat));
            assert(zeros((k - 1) as nat) + s =~= zeros((k - 1) as nat));
        }
    }
}

/// Leading zeros change nothing.
pub proof fn lemma_padded(n: nat, width: nat)
    ensures
        padded(n, width).len() > 0,
        padded(n, width).len() >= width,
        all_digits(padded(n, width)),
        digits_value(padded(n, width)) == n,
{
    lemma_decimal(n);
    let d = decimal(n);
    if d.len() < width {
        lemma_digits_concat_zeros((width - d.len()) as nat, d);
    }
}

/// A number in decimal reads as that number.
pub proof fn decimal_reads_back(n: u64, width: nat)
    ensures
        spec_parse_u64(padded(n as nat, width)) == Some(n),
{
    lemma_padded(n as nat, width);
    assert(is_digit(padded(n as nat, width)[0]));
}

/// A signed number in decimal reads as that number.
pub proof fn signed_decimal_reads_back(n: i64)
    ensures
        spec_parse_i64(signed_decimal(n as int)) == Some(n),
{
    if n < 0 {
        lemma_decimal((-n) as nat);
        assert(signed_decimal(n as int).skip(1) =~= decimal((-n) as nat));
    } else {
        lemma_decimal(n as nat);
        assert(is_digit(decimal(n as nat)[0]));
    }
}

/// Where `b` stands first in `s`, or the length of `s` where it does not occur.
pub open spec fn first_of(s: Seq<u8>, b: u8) -> int
    decreases s.len(),
{
    if s.len() == 0 || s[0] == b {
        0
    } else {
        1 + first_of(s.skip(1), b)
    }
}

/// Where `b` stands last in `s`, or -1 where it does not occur.
pub open spec fn last_of(s: Seq<u8>, b: u8) -> int
    decreases s.len(),
{
    if s.len() == 0 {
        -1
    } else if s.last() == b {
        s.len() - 1
    } else {
        last_of(s.drop_last(), b)
    }
}

pub proof fn lemma_first_of(s: Seq<u8>, b: u8)
    ensures
        0 <= first_of(s, b) <= s.len(),
        first_of(s, b) < s.len() ==> s[first_of(s, b)] == b,
        forall|i: int| 0 <= i < first_of(s, b) ==> #[trigger] s[i] != b,
    decreases s.len(),
{
    if s.len() != 0 && s[0] != b {
        let rest = s.skip(1);
        lemma_first_of(rest, b);
        assert forall|i: int| 0 <= i < first_of(s, b) implies #[trigger] s[i] != b by {
            if i > 0 {
                assert(rest[i - 1] == s[i]);
            }
        }
    }
}

/// A position that holds `b`, with none before it, is the first one.
pub proof fn lemma_first_of_is(s: Seq<u8>, b: u8, at: int)
    requires
        0 <= at <= s.len(),
        at < s.len() ==> s[at] == b,
        forall|i: int| 0 <= i < at ==> #[trigger] s[i] != b,
    ensures
        first_of(s, b) == at,
{
    lemma_first_of(s, b);
    let f = first_of(s, b);
    if f < at {
        assert(s[f] != b);
    }
}

pub proof fn lemma_last_of(s: Seq<u8>, b: u8)
    ensures
        -1 <= last_of(s, b) < s.len(),
        last_of(s, b) >= 0 ==> s[last_of(s, b)] == b,
        forall|i: int| last_of(s, b) < i < s.len() ==> #[trigger] s[i] != b,
    decreases s.len(),
{
    if s.len() != 0 && s.last() != b {
        let rest = s.drop_last();
        lemma_last_of(rest, b);
        assert forall|i: int| last_of(s, b) < i < s.len() implies #[trigger] s[i] != b by {
            if i < s.len() - 1 {
                assert(rest[i] == s[i]);
            }
        }
    }
}

/// A position that holds `b`, with none behind it, is the last one.
pub proof fn lemma_last_of_is(s: Seq<u8>, b: u8, at: int)
    requires
        -1 <= at < s.len(),
        at >= 0 ==> s[at] == b,
        forall|i: int| at < i < s.len() ==> #[trigger] s[i] != b,
    ensures
        last_of(s, b) == at,
{
    lemma_last_of(s, b);
    let l = last_of(s, b);
    if l > at {
        assert(s[l] != b);
    }
}

/// The digits of `n`.
pub fn to_decimal(n: u64) -> (out: Vec<u8>)
    ensures
        out@ == decimal(n as nat),
    decreases n,
{
    if n < 10 {
        let mut out: Vec<u8> = Vec::new();
        out.push(DIGIT_ZERO + n as u8);
        assert(out@ =~= decimal(n as nat));
        out
    } else {
        let mut out: Vec<u8> = to_decimal(n / 10);
        out.push(DIGIT_ZERO + (n % 10) as u8);
        out
    }
}

/// Appends `n` in decimal.
pub fn put_decimal(out: &mut Vec<u8>, n: u64)
    ensures
        final(out)@ == old(out)@ + decimal(n as nat),
{
    let digits = to_decimal(n);
    out.extend_from_slice(digits.as_slice());
    assert(out@ =~= old(out)@ + decimal(n as nat));
}

/// Appends `n` in decimal with its sign.
pub fn put_signed_decimal(out: &mut Vec<u8>, n: i64)
    ensures
        final(out)@ == old(out)@ + signed_decimal(n as int),
{
    if n < 0 {
        out.push(MINUS);
        // The magnitude of the smallest number does not fit the signed type.
        let magnitude: u64 = if n == i64::MIN {
            0x8000_0000_0000_0000
        } else {
            (-n) as u64
        };
        put_decimal(out, magnitude);
        assert(out@ =~= old(out)@ + signed_decimal(n as int));
    } else {
        put_decimal(out, n as u64);
    }
}

/// Appends `n` in decimal with leading zeros.
pub fn put_padded(out: &mut Vec<u8>, n: u64, width: usize)
    ensures
        final(out)@ == old(out)@ + padded(n as nat, width as nat),
{
    let digits = to_decimal(n);
    let ghost start = out@;
    let mut have: usize = digits.len();
    while have < width
        invariant
            digits@.len() <= have,
            have <= width || have == digits@.len(),
            out@ =~= start + zeros((have - digits@.len()) as nat),
        decreases width - have,
    {
        out.push(DIGIT_ZERO);
        have = have + 1;
        assert(out@ =~= start + zeros((have - digits@.len()) as nat));
    }
    out.extend_from_slice(digits.as_slice());
    assert(out@ =~= old(out)@ + padded(n as nat, width as nat));
}

/// The value of `s[from..]` as digits, if it fits 64 bits.
fn parse_digits(s: &[u8], from: usize) -> (r: Option<u64>)
    requires
        from <= s@.len(),
    ensures
        ({
            let d = s@.skip(from as int);
            match r {
                Some(n) => d.len() > 0 && all_digits(d) && digits_value(d) == n,
                None => d.len() == 0 || !all_digits(d) || digits_value(d) > u64::MAX,
            }
        }),
{
    let ghost d = s@.skip(from as int);
    if from == s.len() {
        return None;
    }
    let mut i: usize = from;
    let mut value: Option<u64> = Some(0);
    assert(d.take(0) =~= Seq::<u8>::empty());
    while i < s.len()
        invariant
            from <= i <= s@.len(),
            d == s@.skip(from as int),
            all_digits(d.take(i - from)),
            match value {
                Some(n) => digits_value(d.take(i - from)) == n,
                None => digits_value(d.take(i - from)) > u64::MAX,
            },
        decreases s@.len() - i,
    {
        let b: u8 = s[i];
        proof {
            assert(d[i - from] == b);
            assert(d.take(i - from + 1).drop_last() =~= d.take(i - from));
        }
        if b < 48 || b > 57 {
            assert(!is_digit(d[i - from]));
            return None;
        }
        assert(all_digits(d.take(i - from + 1))) by {
            assert forall|j: int| 0 <= j < i - from + 1 implies is_digit(
                #[trigger] d.take(i - from + 1)[j],
            ) by {
                if j < i - from {
                    assert(is_digit(d.take(i - from)[j]));
                }
            }
        }
        value =
        match value {
            Some(n) => {
                let digit: u64 = (b - 48) as u64;
                if n > (u64::MAX - digit) / 10 {
                    None
                } else {
                    Some(10 * n + digit)
                }
            },
            None => None,
        };
        i = i + 1;
    }
    assert(d.take(i - from) =~= d);
    value
}

/// Reads a number without a sign, or with a plus sign.
pub fn parse_u64(s: &[u8]) -> (r: Option<u64>)
    ensures
        r == spec_parse_u64(s@),
{
    if s.len() > 0 && s[0] == PLUS {
        parse_digits(s, 1)
    } else {
        assert(s@.skip(0) =~= s@);
        parse_digits(s, 0)
    }
}

/// Reads a number with an optional sign.
pub fn parse_i64(s: &[u8]) -> (r: Option<i64>)
    ensures
        r == spec_parse_i64(s@),
{
    if s.len() > 0 && s[0] == MINUS {
        match parse_digits(s, 1) {
            Some(n) => {
                if n < 0x8000_0000_0000_0000 {
                    Some(-(n as i64))
                } else if n == 0x8000_0000_0000_0000 {
                    Some(i64::MIN)
                } else {
                    None
                }
            },
            None => None,
        }
    } else {
        match parse_u64(s) {
            Some(n) => {
                if n <= 0x7fff_ffff_ffff_ffff {
                    Some(n as i64)
                } else {
                    None
                }
            },
            None => None,
        }
    }
}

/// Where `b` stands first in `s` from `from` on.
pub fn position_of(s: &[u8], from: usize, b: u8) -> (at: usize)
    requires
        from <= s@.len(),
    ensures
        at == from + first_of(s@.skip(from as int), b),
        from <= at <= s@.len(),
{
    let mut at: usize = from;
    let ghost rest = s@.skip(from as int);
    while at < s.len() && s[at] != b
        invariant
            from <= at <= s@.len(),
            rest == s@.skip(from as int),
            forall|i: int| 0 <= i < at - from ==> #[trigger] rest[i] != b,
        decreases s@.len() - at,
    {
        at = at + 1;
    }
    proof {
        lemma_first_of_is(rest, b, at - from);
    }
    at
}

// --------------------------------------------------------------------- laws

/// The digit at each place of a number in decimal, counted from its end.
pub proof fn decimal_has_a_digit_for_each_place(n: nat, i: nat)
    requires
        i < decimal(n).len(),
    ensures
        decimal(n)[decimal(n).len() - 1 - i] == 48 + (n as int / pow(10, i)) % 10,
    decreases n,
{
    lemma_pow0(10);
    if n >= 10 && i > 0 {
        let j = (i - 1) as nat;
        decimal_has_a_digit_for_each_place(n / 10, j);
        lemma_pow_positive(10, j);
        lemma_pow_step(i);
        lemma_div_denominator(n as int, 10, pow(10, j));
        assert(decimal(n)[decimal(n).len() - 1 - i] == decimal(n / 10)[decimal(n / 10).len() - 1
            - j]);
    }
}

/// A number in decimal has as many digits as it needs: one for zero, and no zero
/// in front otherwise.
pub proof fn decimal_has_no_digit_too_many(n: nat)
    ensures
        decimal(n).len() >= 1,
        n < pow(10, decimal(n).len()),
        decimal(n).len() > 1 ==> pow(10, (decimal(n).len() - 1) as nat) <= n,
    decreases n,
{
    lemma_pow0(10);
    lemma_pow_step(decimal(n).len());
    if n >= 10 {
        let m = n / 10;
        decimal_has_no_digit_too_many(m);
        let len = decimal(m).len();
        lemma_pow_step(len);
        assert(decimal(n).len() == len + 1);
        assert(n < 10 * (m + 1));
    } else {
        assert(decimal(n).len() == 1);
    }
}

proof fn lemma_pow_step(i: nat)
    requires
        i > 0,
    ensures
        pow(10, i) == 10 * pow(10, (i - 1) as nat),
{
    reveal(pow);
}

/// Digits stand for the number that has each of them at its place.
pub proof fn digits_stand_at_their_places(s: Seq<u8>, i: nat)
    requires
        forall|j: int| 0 <= j < s.len() ==> 48 <= #[trigger] s[j] <= 57,
        i < s.len(),
    ensures
        digits_value(s) < pow(10, s.len()),
        (digits_value(s) as int / pow(10, i)) % 10 == s[s.len() - 1 - i] - 48,
    decreases s.len(),
{
    let rest = s.drop_last();
    let v = digits_value(rest);
    let d = s.last() - 48;
    lemma_pow0(10);
    lemma_pow_step(s.len());
    assert(48 <= s[s.len() - 1] <= 57);
    assert forall|j: int| 0 <= j < rest.len() implies 48 <= #[trigger] rest[j] <= 57 by {
        assert(s[j] == rest[j]);
    }
    if rest.len() == 0 {
        assert(v == 0);
    } else {
        digits_stand_at_their_places(rest, if i > 0 {
            (i - 1) as nat
        } else {
            0
        });
    }
    if i > 0 {
        let j = (i - 1) as nat;
        lemma_pow_positive(10, j);
        lemma_pow_step(i);
        lemma_div_denominator(digits_value(s) as int, 10, pow(10, j));
        assert(digits_value(s) as int / 10 == v);
        assert(s[s.len() - 1 - i] == rest[rest.len() - 1 - j]);
    }
}

/// Digits, with a sign in front or without, are a number if it fits; a number
/// without a sign may not be negative.
pub proof fn digits_with_a_sign_are_a_number(d: Seq<u8>)
    requires
        d.len() > 0,
        forall|j: int| 0 <= j < d.len() ==> 48 <= #[trigger] d[j] <= 57,
    ensures
        ({
            let v = digits_value(d) as int;
            let positive = if v <= 0x7fff_ffff_ffff_ffff {
                Some(v as i64)
            } else {
                None
            };
            let unsigned = if v <= 0xffff_ffff_ffff_ffff {
                Some(v as u64)
            } else {
                None
            };
            &&& spec_parse_i64(d) == positive
            &&& spec_parse_i64(seq![43u8] + d) == positive
            &&& spec_parse_i64(seq![45u8] + d) == (if v <= 0x8000_0000_0000_0000 {
                Some((-v) as i64)
            } else {
                None
            })
            &&& spec_parse_u64(d) == unsigned
            &&& spec_parse_u64(seq![43u8] + d) == unsigned
            &&& spec_parse_u64(seq![45u8] + d) is None
        }),
{
    let plus = seq![43u8] + d;
    let minus = seq![45u8] + d;
    assert(plus.skip(1) =~= d);
    assert(minus.skip(1) =~= d);
    assert(48 <= d[0] <= 57);
    assert(!is_digit(minus[0]));
}

/// Nothing else is a number: not the empty text, not a sign alone, and not a text
/// with anything but digits in it, a sign in front aside.
pub proof fn nothing_else_is_a_number(s: Seq<u8>, i: int)
    requires
        s.len() == 0 || (s.len() == 1 && (s[0] == 43 || s[0] == 45)) || (0 <= i < s.len() && !(48
            <= s[i] <= 57) && (i > 0 || (s[0] != 43 && s[0] != 45))),
    ensures
        spec_parse_i64(s) is None,
        spec_parse_u64(s) is None,
{
    if s.len() > 1 || (s.len() == 1 && s[0] != 43 && s[0] != 45) {
        let d = s.skip(1);
        assert(!is_digit(s[i]));
        if i > 0 {
            assert(d[i - 1] == s[i]);
            assert(!all_digits(d));
        }
        assert(!all_digits(s));
    } else if s.len() == 1 {
        assert(!is_digit(s[0]));
        assert(s.skip(1).len() == 0);
    }
}

/// Leading zeros fill a number up to a width, and are not added beyond it.
pub proof fn zeros_fill_up_to_a_width(n: nat, width: nat, i: int)
    requires
        0 <= i < padded(n, width).len(),
    ensures
        padded(n, width).len() == (if decimal(n).len() < width {
            width
        } else {
            decimal(n).len()
        }),
        padded(n, width)[i] == (if i < padded(n, width).len() - decimal(n).len() {
            48u8
        } else {
            decimal(n)[i - (padded(n, width).len() - decimal(n).len())]
        }),
{
}

/// A negative number is a minus sign and the number without it.
pub proof fn a_minus_stands_before_a_negative_number(n: nat)
    ensures
        signed_decimal(n as int) == decimal(n),
        n > 0 ==> signed_decimal(-(n as int)) == seq![45u8] + decimal(n),
{
}

/// Capitals stand for the small ASCII letters, and every other byte stays.
pub proof fn only_small_letters_change(s: Seq<u8>, i: int)
    requires
        0 <= i < s.len(),
    ensures
        upper(s).len() == s.len(),
        s[i] < 97 || s[i] > 122 ==> upper(s)[i] == s[i],
        97 <= s[i] <= 122 ==> upper(s)[i] + 32 == s[i],
{
}

/// A text of ASCII characters is one byte for each of them.
pub proof fn ascii_is_a_byte_each(t: Seq<char>, b: Seq<u8>)
    requires
        t.len() == b.len(),
        forall|i: int| 0 <= i < b.len() ==> #[trigger] b[i] < 128 && t[i] as int == b[i] as int,
    ensures
        utf8(t) == b,
{
    assert forall|i: int| 0 <= i < t.len() implies '\0' <= #[trigger] t[i] <= '\u{7f}' by {
        assert(b[i] < 128 && t[i] as int == b[i] as int);
    }
    assert(vstd::utf8::is_ascii_chars(t));
    vstd::utf8::is_ascii_chars_encode_utf8(t);
    assert forall|i: int| 0 <= i < b.len() implies utf8(t)[i] == b[i] by {
        assert(b[i] < 128 && t[i] as int == b[i] as int);
        assert(t[i] as u8 == b[i]);
    }
    assert(utf8(t) =~= b);
}

/// Texts are bytes by their UTF-8 encoding, and are shown one by one.
pub proof fn texts_are_utf8(t: Seq<char>, ts: Seq<String>, i: int)
    requires
        0 <= i < ts.len(),
    ensures
        utf8(t) == vstd::utf8::encode_utf8(t),
        texts_view(ts).len() == ts.len(),
        texts_view(ts)[i] == ts[i]@,
{
}

} // verus!
