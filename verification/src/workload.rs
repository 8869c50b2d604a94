//! A load generator's side of the protocol: which keys to ask for, how to ask,
//! and how to get past the replies.
use crate::codec;
use crate::hash;
use crate::resp;
use crate::resp::Reply;
use crate::text;
use vstd::prelude::*;

verus! {

/// A small generator of pseudo-random numbers.
pub struct Rng {
    state: u64,
}

/// The state that follows a state.
pub open spec fn next_state(x: u64) -> u64 {
    let a = x ^ (x << 13);
    let b = a ^ (a >> 7);
    b ^ (b << 17)
}

impl Rng {
    pub closed spec fn spec_state(&self) -> u64 {
        self.state
    }

    pub fn new(seed: u64) -> (r: Self)
        ensures
            r.spec_state() == seed,
    {
        Rng { state: seed }
    }

    /// The generator of worker `t`.
    pub fn for_worker(t: u64) -> (r: Self)
        ensures
            r.spec_state() == 0x2545_F491_4F6C_DD1D ^ (((t + 1) % 0x1_0000_0000_0000_0000) as u64).wrapping_mul(
                0x9E37_79B9,
            ),
    {
        let n: u64 = t.wrapping_add(1);
        Rng { state: 0x2545_F491_4F6C_DD1D ^ n.wrapping_mul(0x9E37_79B9) }
    }

    /// The next number.
    pub fn next_u64(&mut self) -> (r: u64)
        ensures
            r == next_state(old(self).spec_state()),
            final(self).spec_state() == r,
    {
        self.state = self.state ^ (self.state << 13);
        self.state = self.state ^ (self.state >> 7);
        self.state = self.state ^ (self.state << 17);
        self.state
    }

    /// The next number of 53 bits: the numerator of a fraction below one.
    pub fn next_bits(&mut self) -> (r: u64)
        ensures
            r == next_state(old(self).spec_state()) >> 11,
            r < 0x20_0000_0000_0000,
            final(self).spec_state() == next_state(old(self).spec_state()),
    {
        let n: u64 = self.next_u64();
        assert(n >> 11 < 0x20_0000_0000_0000u64) by (bit_vector);
        n >> 11
    }

    /// A number below `n`, all of them equally likely.
    pub fn next_below(&mut self, n: u64) -> (r: u64)
        requires
            n > 0,
        ensures
            r == next_state(old(self).spec_state()) % n,
            final(self).spec_state() == next_state(old(self).spec_state()),
    {
        self.next_u64() % n
    }
}

/// A generator that was not seeded with zero never comes to zero, where it would
/// stay.
pub proof fn the_generator_never_gets_stuck(x: u64)
    requires
        x != 0,
    ensures
        next_state(x) != 0,
{
    assert(x != 0 ==> x ^ (x << 13) != 0) by (bit_vector);
    let a = x ^ (x << 13);
    assert(a != 0 ==> a ^ (a >> 7) != 0) by (bit_vector);
    let b = a ^ (a >> 7);
    assert(b != 0 ==> b ^ (b << 17) != 0) by (bit_vector);
}

/// Scatters ranks over the keys, so that popular keys are not neighbours.
pub fn scramble(rank: u64, n: u64) -> (r: u64)
    requires
        n > 0,
    ensures
        r == hash::spec_hash64(codec::le_bytes(rank as nat, 8)) % n,
{
    let mut bytes: Vec<u8> = Vec::new();
    codec::put_u64(&mut bytes, rank);
    assert(bytes@ =~= codec::le_bytes(rank as nat, 8));
    hash::hash64(bytes.as_slice()) % n
}

/// The key of record `i`: `user` and twelve digits, or more if it takes more.
pub fn key(i: u64) -> (r: Vec<u8>)
    ensures
        r@ == text::utf8("user"@) + text::padded(i as nat, 12),
{
    let mut r: Vec<u8> = vstd::slice::slice_to_vec("user".as_bytes());
    text::put_padded(&mut r, i, 12);
    r
}

/// How many of the 53-bit numbers stand for a read: a half of them, nineteen of
/// twenty, or all.
pub fn read_share(workload: &str) -> (r: Option<u64>)
    ensures
        r == (if workload@ == "a"@ {
            Some(0x10_0000_0000_0000u64)
        } else if workload@ == "b"@ {
            Some(0x1e_6666_6666_6666u64)
        } else if workload@ == "c"@ {
            Some(0x20_0000_0000_0000u64)
        } else {
            None
        }),
{
    if text::same_text(workload, "a") {
        Some(0x10_0000_0000_0000)
    } else if text::same_text(workload, "b") {
        Some(0x1e_6666_6666_6666)
    } else if text::same_text(workload, "c") {
        Some(0x20_0000_0000_0000)
    } else {
        None
    }
}

/// Where `name` stands first among the arguments, or their number.
pub open spec fn position(args: Seq<Seq<char>>, name: Seq<char>) -> int
    decreases args.len(),
{
    if args.len() == 0 || args[0] == name {
        0
    } else {
        1 + position(args.skip(1), name)
    }
}

/// The argument that follows `name`, or the fallback.
pub open spec fn option(args: Seq<Seq<char>>, name: Seq<char>, fallback: Seq<char>) -> Seq<char> {
    let i = position(args, name);
    if i + 1 < args.len() {
        args[i + 1]
    } else {
        fallback
    }
}

proof fn lemma_position(args: Seq<Seq<char>>, name: Seq<char>, at: int)
    requires
        0 <= at <= args.len(),
        at < args.len() ==> args[at] == name,
        forall|i: int| 0 <= i < at ==> #[trigger] args[i] != name,
    ensures
        position(args, name) == at,
    decreases at,
{
    if at > 0 {
        let rest = args.skip(1);
        assert(args[0] != name);
        assert forall|i: int| 0 <= i < at - 1 implies #[trigger] rest[i] != name by {
            assert(rest[i] == args[i + 1]);
        }
        lemma_position(rest, name, at - 1);
    }
}

/// Looks an option up on the command line.
pub fn arg(args: &Vec<String>, name: &str, fallback: &str) -> (r: String)
    ensures
        r@ == option(text::texts_view(args@), name@, fallback@),
{
    let ghost all = text::texts_view(args@);
    let mut i: usize = 0;
    while i < args.len() && !text::same_text(args[i].as_str(), name)
        invariant
            i <= args@.len(),
            all == text::texts_view(args@),
            forall|j: int| 0 <= j < i ==> #[trigger] all[j] != name@,
        decreases args@.len() - i,
    {
        assert(all[i as int] == args@[i as int]@);
        i = i + 1;
    }
    proof {
        if i < args@.len() {
            assert(all[i as int] == args@[i as int]@);
        }
        lemma_position(all, name@, i as int);
    }
    if i < args.len() && i + 1 < args.len() {
        assert(all[i + 1] == args@[i + 1]@);
        args[i + 1].as_str().to_string()
    } else {
        fallback.to_string()
    }
}

/// White space at either end of a line of single bytes.
pub open spec fn is_white_byte(b: u8) -> bool {
    9 <= b <= 13 || b == 32 || b == 0x85 || b == 0xa0
}

/// A line without its carriage returns.
pub open spec fn without_returns(s: Seq<u8>) -> Seq<u8>
    decreases s.len(),
{
    if s.len() == 0 {
        Seq::empty()
    } else if s.last() == 13 {
        without_returns(s.drop_last())
    } else {
        without_returns(s.drop_last()).push(s.last())
    }
}

pub open spec fn trimmed_front(s: Seq<u8>) -> Seq<u8>
    decreases s.len(),
{
    if s.len() > 0 && is_white_byte(s[0]) {
        trimmed_front(s.skip(1))
    } else {
        s
    }
}

pub open spec fn trimmed(s: Seq<u8>) -> Seq<u8>
    decreases s.len(),
{
    if s.len() > 0 && is_white_byte(s.last()) {
        trimmed(s.drop_last())
    } else {
        trimmed_front(s)
    }
}

/// The number behind the mark of a reply's first line.
pub open spec fn reply_number(line: Seq<u8>) -> Option<i64> {
    text::spec_parse_i64(trimmed(line.skip(1)))
}

/// Where the reply at `at` ends; nothing while it is not complete. A bulk string
/// or an array whose number cannot be read counts as empty.
pub open spec fn reply_end(s: Seq<u8>, at: int) -> Option<int>
    decreases s.len() - at, 0int,
{
    let p = text::first_of(s.skip(at), 10);
    if at < 0 || at >= s.len() || !(0 <= p < s.len() - at) {
        None
    } else {
        let next = at + p + 1;
        let line = without_returns(s.subrange(at, at + p));
        if line.len() > 0 && line[0] == 36 {
            match reply_number(line) {
                Some(n) => if n < 0 {
                    Some(next)
                } else if next + n + 2 <= s.len() {
                    Some(next + n + 2)
                } else {
                    None
                },
                None => Some(next),
            }
        } else if line.len() > 0 && line[0] == 42 {
            match reply_number(line) {
                Some(n) => replies_end(s, next, n as int),
                None => Some(next),
            }
        } else {
            Some(next)
        }
    }
}

/// Where `n` replies from `at` on end.
pub open spec fn replies_end(s: Seq<u8>, at: int, n: int) -> Option<int>
    decreases s.len() - at, n,
{
    if n <= 0 {
        Some(at)
    } else {
        match reply_end(s, at) {
            Some(next) => if at < next <= s.len() {
                replies_end(s, next, n - 1)
            } else {
                None
            },
            None => None,
        }
    }
}

fn strip_returns(s: &[u8], from: usize, to: usize) -> (r: Vec<u8>)
    requires
        from <= to <= s@.len(),
    ensures
        r@ == without_returns(s@.subrange(from as int, to as int)),
{
    let ghost all = s@.subrange(from as int, to as int);
    let mut r: Vec<u8> = Vec::new();
    let mut i: usize = from;
    assert(all.take(0) =~= Seq::<u8>::empty());
    while i < to
        invariant
            from <= i <= to <= s@.len(),
            all == s@.subrange(from as int, to as int),
            r@ == without_returns(all.take(i - from)),
        decreases to - i,
    {
        proof {
            assert(all.take(i - from + 1).drop_last() =~= all.take(i - from));
            assert(all.take(i - from + 1).last() == s@[i as int]);
        }
        if s[i] != 13 {
            r.push(s[i]);
        }
        i = i + 1;
    }
    assert(all.take(i - from) =~= all);
    r
}

fn white_byte(b: u8) -> (r: bool)
    ensures
        r == is_white_byte(b),
{
    (9 <= b && b <= 13) || b == 32 || b == 0x85 || b == 0xa0
}

fn number_of(line: &Vec<u8>) -> (r: Option<i64>)
    requires
        line@.len() > 0,
    ensures
        r == reply_number(line@),
{
    let ghost rest = line@.skip(1);
    let mut end: usize = line.len();
    assert(line@.subrange(1, end as int) =~= rest);
    while end > 1 && white_byte(line[end - 1])
        invariant
            1 <= end <= line@.len(),
            trimmed(rest) == trimmed(line@.subrange(1, end as int)),
        decreases end,
    {
        assert(line@.subrange(1, end as int).drop_last() =~= line@.subrange(1, end - 1));
        end = end - 1;
    }
    let mut start: usize = 1;
    while start < end && white_byte(line[start])
        invariant
            1 <= start <= end <= line@.len(),
            trimmed(rest) == trimmed_front(line@.subrange(start as int, end as int)),
        decreases end - start,
    {
        assert(line@.subrange(start as int, end as int).skip(1) =~= line@.subrange(
            start + 1,
            end as int,
        ));
        start = start + 1;
    }
    let digits = codec::copy_range(line.as_slice(), start, end);
    text::parse_i64(digits.as_slice())
}

/// How far the first reply in `s` goes from `at` on; nothing while it is not
/// complete.
pub fn skip_reply(s: &[u8], at: usize) -> (r: Option<usize>)
    requires
        at <= s@.len(),
    ensures
        match r {
            Some(end) => reply_end(s@, at as int) == Some(end as int) && at < end <= s@.len(),
            None => reply_end(s@, at as int) is None,
        },
    decreases s@.len() - at, 0int,
{
    let len: usize = s.len();
    proof {
        text::lemma_first_of(s@.skip(at as int), 10);
    }
    let p: usize = text::position_of(s, at, 10);
    if p == len {
        return None;
    }
    let next: usize = p + 1;
    let line = strip_returns(s, at, p);
    if line.len() > 0 && line[0] == 36 {
        match number_of(&line) {
            Some(n) => {
                if n < 0 {
                    return Some(next);
                }
                let left: usize = len - next;
                if n as u64 > left as u64 || left - (n as usize) < 2 {
                    return None;
                }
                Some(next + n as usize + 2)
            },
            None => Some(next),
        }
    } else if line.len() > 0 && line[0] == 42 {
        match number_of(&line) {
            Some(n) => skip_replies(s, next, n),
            None => Some(next),
        }
    } else {
        Some(next)
    }
}

fn skip_replies(s: &[u8], at: usize, n: i64) -> (r: Option<usize>)
    requires
        at <= s@.len(),
    ensures
        match r {
            Some(end) => replies_end(s@, at as int, n as int) == Some(end as int) && at <= end
                <= s@.len(),
            None => replies_end(s@, at as int, n as int) is None,
        },
    decreases s@.len() - at, 1int,
{
    let mut left: i64 = n;
    let mut end: usize = at;
    while left > 0
        invariant
            at <= end <= s@.len(),
            replies_end(s@, at as int, n as int) == replies_end(s@, end as int, left as int),
        decreases left,
    {
        match skip_reply(s, end) {
            Some(next) => {
                end = next;
            },
            None => {
                return None;
            },
        }
        left = left - 1;
    }
    Some(end)
}

/// A reply that can be told from what follows: its texts have no line ends, and
/// its lengths fit a number.
pub open spec fn readable(r: Reply) -> bool
    decreases r, 0nat,
{
    match r {
        Reply::Simple(t) => !text::utf8(t@).contains(10),
        Reply::Error(t) => !text::utf8(t@).contains(10),
        Reply::Integer(_) => true,
        Reply::Nil => true,
        Reply::Bulk(bytes) => bytes@.len() <= i64::MAX,
        Reply::Array(items) => items@.len() <= i64::MAX && all_readable(items@),
    }
}

pub open spec fn all_readable(items: Seq<Reply>) -> bool
    decreases items, items.len(),
{
    items.len() > 0 ==> all_readable(items.drop_last()) && readable(items.last())
}

/// A client gets past every reply that the server sends, and no further.
pub proof fn replies_are_skipped_whole(r: Reply, more: Seq<u8>)
    requires
        readable(r),
    ensures
        reply_end(resp::reply_bytes(r) + more, 0) == Some(resp::reply_bytes(r).len() as int),
{
    lemma_skip(Seq::empty(), r, more);
    assert(Seq::<u8>::empty() + resp::reply_bytes(r) + more =~= resp::reply_bytes(r) + more);
}

/// The first line of a reply.
proof fn lemma_first_line(before: Seq<u8>, mark: u8, rest: Seq<u8>, after: Seq<u8>)
    requires
        mark != 10,
        mark != 13,
        !rest.contains(10),
    ensures
        ({
            let s = before + resp::marked(mark, rest) + after;
            let at = before.len() as int;
            let p = text::first_of(s.skip(at), 10);
            &&& p == rest.len() + 2
            &&& p < s.len() - at
            &&& s.subrange(at, at + p) == seq![mark] + rest + seq![13u8]
            &&& without_returns(s.subrange(at, at + p)).len() > 0
            &&& without_returns(s.subrange(at, at + p))[0] == mark
        }),
{
    let whole = resp::marked(mark, rest);
    let s = before + whole + after;
    let at = before.len() as int;
    let tail = s.skip(at);
    let p = rest.len() as int + 2;
    assert(tail =~= whole + after);
    assert(whole[p] == 10);
    assert forall|i: int| 0 <= i < p implies #[trigger] tail[i] != 10 by {
        if 0 < i < p - 1 {
            assert(tail[i] == rest[i - 1]);
        }
    }
    text::lemma_first_of_is(tail, 10, p);
    let line = seq![mark] + rest + seq![13u8];
    assert(s.subrange(at, at + p) =~= line);
    lemma_returns_keep_front(line);
}

proof fn lemma_returns_keep_front(s: Seq<u8>)
    requires
        s.len() > 0,
        s[0] != 13,
    ensures
        without_returns(s).len() > 0,
        without_returns(s)[0] == s[0],
    decreases s.len(),
{
    if s.len() == 1 {
        assert(s.drop_last() =~= Seq::<u8>::empty());
        assert(without_returns(s.drop_last()) =~= Seq::<u8>::empty());
    } else {
        lemma_returns_keep_front(s.drop_last());
        assert(s.drop_last()[0] == s[0]);
    }
}

/// Digits come through unchanged.
proof fn lemma_number(mark: u8, n: i64)
    requires
        0 <= n,
        mark != 13,
    ensures
        reply_number(without_returns(seq![mark] + text::decimal(n as nat) + seq![13u8])) == Some(n),
{
    let d = text::decimal(n as nat);
    let line = seq![mark] + d;
    text::lemma_decimal(n as nat);
    assert(forall|i: int| 0 <= i < line.len() ==> line[i] != 13) by {
        assert forall|i: int| 0 <= i < line.len() implies line[i] != 13 by {
            if i > 0 {
                assert(text::is_digit(d[i - 1]));
            }
        }
    }
    lemma_no_returns(line);
    assert((line + seq![13u8]).drop_last() =~= line);
    assert(line.skip(1) =~= d);
    assert(text::is_digit(d[0]) && text::is_digit(d[d.len() - 1]));
    text::signed_decimal_reads_back(n);
}

proof fn lemma_no_returns(s: Seq<u8>)
    requires
        forall|i: int| 0 <= i < s.len() ==> s[i] != 13,
    ensures
        without_returns(s) == s,
    decreases s.len(),
{
    if s.len() > 0 {
        lemma_no_returns(s.drop_last());
        assert(s.drop_last().push(s.last()) =~= s);
    }
}

proof fn lemma_replies_front(items: Seq<Reply>)
    requires
        items.len() > 0,
    ensures
        resp::replies_bytes(items) == resp::reply_bytes(items[0]) + resp::replies_bytes(
            items.skip(1),
        ),
        all_readable(items) ==> readable(items[0]) && all_readable(items.skip(1)),
    decreases items.len(),
{
    if items.len() == 1 {
        assert(items.drop_last() =~= Seq::<Reply>::empty());
        assert(items.skip(1) =~= Seq::<Reply>::empty());
        assert(resp::replies_bytes(items) =~= resp::reply_bytes(items[0]) + resp::replies_bytes(
            items.skip(1),
        ));
    } else {
        lemma_replies_front(items.drop_last());
        assert(items.drop_last().skip(1) =~= items.skip(1).drop_last());
        assert(resp::replies_bytes(items) =~= resp::reply_bytes(items[0]) + resp::replies_bytes(
            items.skip(1),
        ));
    }
}

proof fn lemma_digits_have_no_line_end(d: Seq<u8>)
    requires
        text::all_digits(d),
    ensures
        !d.contains(10),
        !(seq![45u8] + d).contains(10),
{
    if d.contains(10) {
        let i = choose|i: int| 0 <= i < d.len() && d[i] == 10;
        assert(text::is_digit(d[i]));
    }
    let m = seq![45u8] + d;
    if m.contains(10) {
        let i = choose|i: int| 0 <= i < m.len() && m[i] == 10;
        assert(i > 0 && m[i] == d[i - 1]);
        assert(text::is_digit(d[i - 1]));
    }
}

proof fn lemma_skip(before: Seq<u8>, r: Reply, after: Seq<u8>)
    requires
        readable(r),
    ensures
        reply_end(before + resp::reply_bytes(r) + after, before.len() as int) == Some(
            (before.len() + resp::reply_bytes(r).len()) as int,
        ),
        resp::reply_bytes(r).len() > 0,
    decreases r, 0nat,
{
    let s = before + resp::reply_bytes(r) + after;
    match r {
        Reply::Simple(t) => {
            lemma_first_line(before, 43, text::utf8(t@), after);
        },
        Reply::Error(t) => {
            lemma_first_line(before, 45, text::utf8(t@), after);
        },
        Reply::Integer(n) => {
            if n < 0 {
                text::lemma_decimal((-n) as nat);
                lemma_digits_have_no_line_end(text::decimal((-n) as nat));
            } else {
                text::lemma_decimal(n as nat);
                lemma_digits_have_no_line_end(text::decimal(n as nat));
            }
            lemma_first_line(before, 58, text::signed_decimal(n as int), after);
        },
        Reply::Nil => {
            let rest = text::signed_decimal(-1);
            assert(rest =~= seq![45u8, 49u8]) by {
                assert(text::decimal(1) =~= seq![49u8]);
            }
            assert(resp::reply_bytes(r) =~= resp::marked(36, rest));
            text::lemma_decimal(1);
            lemma_digits_have_no_line_end(text::decimal(1));
            lemma_first_line(before, 36, rest, after);
            let line = seq![36u8] + rest;
            lemma_no_returns(line);
            assert((line + seq![13u8]).drop_last() =~= line);
            assert(line.skip(1) =~= rest);
            text::signed_decimal_reads_back(-1i64);
            assert(trimmed(rest) == rest);
        },
        Reply::Bulk(bytes) => {
            let n = bytes@.len();
            let tail = bytes@ + resp::crlf() + after;
            text::lemma_decimal(n);
            lemma_digits_have_no_line_end(text::decimal(n));
            lemma_first_line(before, 36, text::decimal(n), tail);
            lemma_number(36, n as i64);
            assert(s =~= before + resp::marked(36, text::decimal(n)) + tail);
        },
        Reply::Array(items) => {
            let n = items@.len();
            let head = resp::marked(42, text::decimal(n));
            let tail = resp::replies_bytes(items@) + after;
            text::lemma_decimal(n);
            lemma_digits_have_no_line_end(text::decimal(n));
            lemma_first_line(before, 42, text::decimal(n), tail);
            lemma_number(42, n as i64);
            assert(s =~= before + head + tail);
            assert(decreases_to!(r => r->Array_0));
            assert(decreases_to!(r->Array_0 => r->Array_0@));
            lemma_skip_all(before + head, items@, after);
            assert(s =~= (before + head) + resp::replies_bytes(items@) + after);
        },
    }
}

proof fn lemma_skip_all(before: Seq<u8>, items: Seq<Reply>, after: Seq<u8>)
    requires
        all_readable(items),
    ensures
        replies_end(
            before + resp::replies_bytes(items) + after,
            before.len() as int,
            items.len() as int,
        ) == Some((before.len() + resp::replies_bytes(items).len()) as int),
    decreases items, items.len(),
{
    let s = before + resp::replies_bytes(items) + after;
    if items.len() > 0 {
        let r = items[0];
        let rest = items.skip(1);
        lemma_replies_front(items);
        assert(s =~= before + resp::reply_bytes(r) + (resp::replies_bytes(rest) + after));
        lemma_skip(before, r, resp::replies_bytes(rest) + after);
        let next = before + resp::reply_bytes(r);
        assert(s =~= next + resp::replies_bytes(rest) + after);
        lemma_skip_all(next, rest, after);
    }
}

/// The next state of the generator: three shifts, each folded in.
pub proof fn the_generator_shifts_three_times(x: u64, a: u64, b: u64)
    requires
        a == x ^ (x << 13),
        b == a ^ (a >> 7),
    ensures
        next_state(x) == b ^ (b << 17),
{
}

/// The value of an option is what follows its first occurrence; where it does not
/// occur, or nothing follows, the fallback stands.
pub proof fn an_option_is_what_follows_its_name(
    before: Seq<Seq<char>>,
    name: Seq<char>,
    value: Seq<char>,
    after: Seq<Seq<char>>,
    fallback: Seq<char>,
)
    requires
        forall|i: int| 0 <= i < before.len() ==> #[trigger] before[i] != name,
    ensures
        option(before + seq![name, value] + after, name, fallback) == value,
        option(before.push(name), name, fallback) == fallback,
        option(before, name, fallback) == fallback,
{
    let all = before + seq![name, value] + after;
    assert forall|i: int| 0 <= i < before.len() implies #[trigger] all[i] != name by {
        assert(all[i] == before[i]);
    }
    lemma_position(all, name, before.len() as int);
    lemma_position(before.push(name), name, before.len() as int);
    lemma_position(before, name, before.len() as int);
}

/// Carriage returns go, and nothing else does.
pub proof fn only_carriage_returns_go(s: Seq<u8>)
    ensures
        without_returns(s) == s.filter(|b: u8| b != 13),
    decreases s.len(),
{
    reveal(Seq::filter);
    if s.len() > 0 {
        only_carriage_returns_go(s.drop_last());
    }
}

/// White space around a number goes, and nothing within it does.
pub proof fn only_outer_white_space_goes(front: Seq<u8>, core: Seq<u8>, back: Seq<u8>)
    requires
        forall|i: int| 0 <= i < front.len() ==> is_white_byte(#[trigger] front[i]),
        forall|i: int| 0 <= i < back.len() ==> is_white_byte(#[trigger] back[i]),
        core.len() > 0,
        !is_white_byte(core[0]),
        !is_white_byte(core.last()),
    ensures
        trimmed(front + core + back) == core,
    decreases front.len() + back.len(),
{
    let s = front + core + back;
    if back.len() > 0 {
        assert(is_white_byte(back[back.len() - 1]));
        assert(s.drop_last() =~= front + core + back.drop_last());
        only_outer_white_space_goes(front, core, back.drop_last());
    } else {
        assert(s =~= front + core);
        assert(s.last() == core.last());
        lemma_front(front, core);
    }
}

proof fn lemma_front(front: Seq<u8>, core: Seq<u8>)
    requires
        forall|i: int| 0 <= i < front.len() ==> is_white_byte(#[trigger] front[i]),
        core.len() > 0,
        !is_white_byte(core[0]),
    ensures
        trimmed_front(front + core) == core,
    decreases front.len(),
{
    if front.len() == 0 {
        assert(front + core =~= core);
    } else {
        let less = front.skip(1);
        assert(is_white_byte(front[0]));
        assert forall|i: int| 0 <= i < less.len() implies is_white_byte(#[trigger] less[i]) by {
            assert(less[i] == front[i + 1]);
        }
        assert((front + core).skip(1) =~= less + core);
        lemma_front(less, core);
    }
}

/// White space is a tab, a line end, a space, and the two such characters that a
/// single byte above ASCII can be.
pub proof fn white_bytes_are_these(b: u8)
    ensures
        is_white_byte(b) <==> b == 9 || b == 10 || b == 11 || b == 12 || b == 13 || b == 32 || b
            == 0x85 || b == 0xa0,
{
}

} // verus!
