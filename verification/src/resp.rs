//! The wire protocol of the server: replies as bytes, and commands from bytes.
//!
//! A command is an array of bulk strings, each with its length in front, so it
//! may hold any bytes at all. A line that is no array is a command too, its words
//! being the arguments: that is what a person at a terminal types.
use crate::codec;
use crate::text;
use vstd::prelude::*;

verus! {

/// The longest argument that is accepted.
pub const MAX_BULK_LEN: i64 = 64 * 1024 * 1024;

/// The most arguments that are accepted.
pub const MAX_ARGS: i64 = 1024;

/// What the server sends back.
pub enum Reply {
    Simple(&'static str),
    Error(String),
    Integer(i64),
    Bulk(Vec<u8>),
    Nil,
    Array(Vec<Reply>),
}

/// The end of every line.
pub open spec fn crlf() -> Seq<u8> {
    seq![13u8, 10u8]
}

/// A line that starts with a mark.
pub open spec fn marked(mark: u8, rest: Seq<u8>) -> Seq<u8> {
    seq![mark] + rest + crlf()
}

/// A bulk string: its length, and then its bytes.
pub open spec fn bulk_bytes(bytes: Seq<u8>) -> Seq<u8> {
    marked(36, text::decimal(bytes.len())) + bytes + crlf()
}

/// A reply on the wire.
pub open spec fn reply_bytes(r: Reply) -> Seq<u8>
    decreases r, 0nat,
{
    match r {
        Reply::Simple(t) => marked(43, vstd::utf8::encode_utf8(t@)),
        Reply::Error(t) => marked(45, vstd::utf8::encode_utf8(t@)),
        Reply::Integer(n) => marked(58, text::signed_decimal(n as int)),
        Reply::Nil => seq![36u8, 45u8, 49u8, 13u8, 10u8],
        Reply::Bulk(bytes) => bulk_bytes(bytes@),
        Reply::Array(items) => marked(42, text::decimal(items@.len())) + replies_bytes(items@),
    }
}

/// Replies one behind the other.
pub open spec fn replies_bytes(items: Seq<Reply>) -> Seq<u8>
    decreases items, items.len(),
{
    if items.len() == 0 {
        Seq::empty()
    } else {
        replies_bytes(items.drop_last()) + reply_bytes(items.last())
    }
}

fn put_crlf(out: &mut Vec<u8>)
    ensures
        final(out)@ == old(out)@ + crlf(),
{
    out.push(13);
    out.push(10);
    assert(out@ =~= old(out)@ + crlf());
}

impl Reply {
    /// Appends the reply to what is to be sent.
    pub fn write_to(&self, out: &mut Vec<u8>)
        ensures
            final(out)@ == old(out)@ + reply_bytes(*self),
        decreases *self,
    {
        let ghost start = out@;
        match self {
            Reply::Simple(t) => {
                out.push(43);
                codec::put_bytes(out, t.as_bytes());
                put_crlf(out);
            },
            Reply::Error(t) => {
                out.push(45);
                codec::put_bytes(out, t.as_str().as_bytes());
                put_crlf(out);
            },
            Reply::Integer(n) => {
                out.push(58);
                text::put_signed_decimal(out, *n);
                put_crlf(out);
            },
            Reply::Nil => {
                out.push(36);
                out.push(45);
                out.push(49);
                put_crlf(out);
            },
            Reply::Bulk(bytes) => {
                out.push(36);
                text::put_decimal(out, bytes.len() as u64);
                put_crlf(out);
                codec::put_bytes(out, bytes.as_slice());
                put_crlf(out);
            },
            Reply::Array(items) => {
                out.push(42);
                text::put_decimal(out, items.len() as u64);
                put_crlf(out);
                let ghost header = out@;
                let mut i: usize = 0;
                assert(items@.take(0) =~= Seq::<Reply>::empty());
                while i < items.len()
                    invariant
                        i <= items@.len(),
                        *self == Reply::Array(*items),
                        out@ =~= header + replies_bytes(items@.take(i as int)),
                    decreases items@.len() - i,
                {
                    proof {
                        assert(decreases_to!(*self => self->Array_0));
                        assert(decreases_to!(self->Array_0 => self->Array_0@));
                        assert(decreases_to!(self->Array_0@ => self->Array_0@[i as int]));
                    }
                    items[i].write_to(out);
                    proof {
                        assert(items@.take(i + 1).drop_last() =~= items@.take(i as int));
                        assert(items@.take(i + 1).last() == items@[i as int]);
                    }
                    i = i + 1;
                }
                assert(items@.take(i as int) =~= items@);
            },
        }
        assert(out@ =~= start + reply_bytes(*self));
    }
}

/// Why a command cannot be read.
#[derive(PartialEq, Eq, Structural, Clone, Copy, Debug)]
pub enum RespError {
    /// An argument does not start with the mark of a bulk string.
    ExpectedBulk,
    /// A bulk string has a negative length.
    NegativeLength,
    /// A length is not text.
    NotUtf8,
    /// A length is not a number.
    NotAnInteger,
    /// A length is over the limit.
    OverLimit,
    /// The connection ended between the arguments of a command.
    ConnectionClosed,
    /// The connection ended within an argument.
    Truncated,
}

impl RespError {
    /// Whether the bytes break the protocol, rather than end too early.
    pub open spec fn spec_is_protocol_error(&self) -> bool {
        !(*self is ConnectionClosed) && !(*self is Truncated)
    }

    pub fn is_protocol_error(&self) -> (r: bool)
        ensures
            r == self.spec_is_protocol_error(),
    {
        match self {
            RespError::ConnectionClosed => false,
            RespError::Truncated => false,
            _ => true,
        }
    }

    /// The error in words.
    pub open spec fn spec_message(&self) -> Seq<char> {
        match *self {
            RespError::ExpectedBulk => "expected a bulk string argument"@,
            RespError::NegativeLength => "negative bulk string length"@,
            RespError::NotUtf8 => "length is not valid UTF-8"@,
            RespError::NotAnInteger => "length is not an integer"@,
            RespError::OverLimit => "length exceeds the protocol limit"@,
            RespError::ConnectionClosed => "connection closed mid-command"@,
            RespError::Truncated => "failed to fill whole buffer"@,
        }
    }

    pub fn message(&self) -> (r: &'static str)
        ensures
            r@ == self.spec_message(),
    {
        match self {
            RespError::ExpectedBulk => "expected a bulk string argument",
            RespError::NegativeLength => "negative bulk string length",
            RespError::NotUtf8 => "length is not valid UTF-8",
            RespError::NotAnInteger => "length is not an integer",
            RespError::OverLimit => "length exceeds the protocol limit",
            RespError::ConnectionClosed => "connection closed mid-command",
            RespError::Truncated => "failed to fill whole buffer",
        }
    }
}

/// What the bytes of a connection hold.
pub enum ReadStep {
    /// The connection ended where a command could have started.
    Closed,
    /// The command is not complete yet.
    More,
    /// A command, and how many bytes it took.
    Command { args: Vec<Vec<u8>>, consumed: usize },
}

/// The same, as contracts speak of it.
pub enum Reading {
    Closed,
    More,
    Command { args: Seq<Seq<u8>>, consumed: int },
}

pub open spec fn args_view(args: Seq<Vec<u8>>) -> Seq<Seq<u8>> {
    Seq::new(args.len(), |i: int| args[i]@)
}

impl View for ReadStep {
    type V = Reading;

    open spec fn view(&self) -> Reading {
        match *self {
            ReadStep::Closed => Reading::Closed,
            ReadStep::More => Reading::More,
            ReadStep::Command { args, consumed } => Reading::Command {
                args: args_view(args@),
                consumed: consumed as int,
            },
        }
    }
}

pub open spec fn is_space(b: u8) -> bool {
    b == 32 || b == 9 || b == 10 || b == 12 || b == 13
}

/// How many bytes come before the first space.
pub open spec fn word_len(s: Seq<u8>) -> int
    decreases s.len(),
{
    if s.len() == 0 || is_space(s[0]) {
        0
    } else {
        1 + word_len(s.skip(1))
    }
}

/// The words of a line.
pub open spec fn words(s: Seq<u8>) -> Seq<Seq<u8>>
    decreases s.len(),
{
    if s.len() == 0 {
        Seq::empty()
    } else if is_space(s[0]) {
        words(s.skip(1))
    } else {
        let n = word_len(s);
        if 0 < n <= s.len() {
            seq![s.take(n)] + words(s.skip(n))
        } else {
            Seq::empty()
        }
    }
}

/// A line without the line ends behind it.
pub open spec fn trimmed(s: Seq<u8>) -> Seq<u8>
    decreases s.len(),
{
    if s.len() > 0 && (s.last() == 10 || s.last() == 13) {
        trimmed(s.drop_last())
    } else {
        s
    }
}

/// A line, or why there is none.
pub enum LineStep {
    End,
    More,
    Line { line: Seq<u8>, next: int },
}

/// The line that starts at `at`. A connection that ends also ends its last line.
pub open spec fn line_at(s: Seq<u8>, at: int, eof: bool) -> LineStep {
    let rest = s.skip(at);
    let p = text::first_of(rest, 10);
    if p < rest.len() {
        LineStep::Line { line: trimmed(rest.take(p)), next: at + p + 1 }
    } else if !eof {
        LineStep::More
    } else if rest.len() == 0 {
        LineStep::End
    } else {
        LineStep::Line { line: trimmed(rest), next: s.len() as int }
    }
}

/// A length behind its mark.
pub open spec fn length_of(bytes: Seq<u8>, max: i64) -> Result<i64, RespError> {
    if !vstd::utf8::valid_utf8(bytes) {
        Err(RespError::NotUtf8)
    } else {
        match text::spec_parse_i64(bytes) {
            None => Err(RespError::NotAnInteger),
            Some(n) => if n > max {
                Err(RespError::OverLimit)
            } else {
                Ok(n)
            },
        }
    }
}

/// The bulk string at `at` and the position behind it; nothing while it is not
/// complete.
pub open spec fn arg_at(s: Seq<u8>, at: int, eof: bool) -> Result<Option<(Seq<u8>, int)>, RespError> {
    match line_at(s, at, eof) {
        LineStep::More => Ok(None),
        LineStep::End => Err(RespError::ConnectionClosed),
        LineStep::Line { line, next } => if line.len() == 0 || line[0] != 36 {
            Err(RespError::ExpectedBulk)
        } else {
            match length_of(line.skip(1), MAX_BULK_LEN) {
                Err(e) => Err(e),
                Ok(n) => if n < 0 {
                    Err(RespError::NegativeLength)
                } else if next + n + 2 > s.len() {
                    if eof {
                        Err(RespError::Truncated)
                    } else {
                        Ok(None)
                    }
                } else {
                    Ok(Some((s.subrange(next, next + n), next + n + 2)))
                },
            }
        },
    }
}

/// `n` bulk strings from `at` on, and the position behind them.
pub open spec fn args_from(s: Seq<u8>, at: int, n: int, eof: bool) -> Result<
    Option<(Seq<Seq<u8>>, int)>,
    RespError,
>
    decreases n,
{
    if n <= 0 {
        Ok(Some((Seq::empty(), at)))
    } else {
        match arg_at(s, at, eof) {
            Err(e) => Err(e),
            Ok(None) => Ok(None),
            Ok(Some((arg, next))) => match args_from(s, next, n - 1, eof) {
                Err(e) => Err(e),
                Ok(None) => Ok(None),
                Ok(Some((args, end))) => Ok(Some((seq![arg] + args, end))),
            },
        }
    }
}

/// The first command in the bytes of a connection.
pub open spec fn command_at(s: Seq<u8>, eof: bool) -> Result<Reading, RespError> {
    match line_at(s, 0, eof) {
        LineStep::More => Ok(Reading::More),
        LineStep::End => Ok(Reading::Closed),
        LineStep::Line { line, next } => if line.len() == 0 || line[0] != 42 {
            Ok(Reading::Command { args: words(line), consumed: next })
        } else {
            match length_of(line.skip(1), MAX_ARGS) {
                Err(e) => Err(e),
                Ok(n) => match args_from(s, next, n as int, eof) {
                    Err(e) => Err(e),
                    Ok(None) => Ok(Reading::More),
                    Ok(Some((args, end))) => Ok(Reading::Command { args, consumed: end }),
                },
            }
        },
    }
}

/// `std::str::from_utf8`, which succeeds on valid UTF-8 and on nothing else.
#[verifier::external_body]
fn is_utf8(bytes: &[u8]) -> (r: bool)
    ensures
        r == vstd::utf8::valid_utf8(bytes@),
{
    std::str::from_utf8(bytes).is_ok()
}

/// A line that was found, or why there is none.
enum Line {
    End,
    More,
    Found { line: Vec<u8>, next: usize },
}

spec fn line_view(l: Line) -> LineStep {
    match l {
        Line::End => LineStep::End,
        Line::More => LineStep::More,
        Line::Found { line, next } => LineStep::Line { line: line@, next: next as int },
    }
}

fn read_line(s: &[u8], at: usize, eof: bool) -> (r: Line)
    requires
        at <= s@.len(),
    ensures
        line_view(r) == line_at(s@, at as int, eof),
        r matches Line::Found { line, next } ==> at < next <= s@.len(),
{
    let ghost rest = s@.skip(at as int);
    proof {
        text::lemma_first_of(rest, 10);
    }
    let p: usize = text::position_of(s, at, 10);
    let len: usize = s.len();
    if p == len {
        if !eof {
            return Line::More;
        }
        if at == len {
            return Line::End;
        }
    }
    let ghost raw = rest.take(p - at);
    let mut end: usize = p;
    assert(raw =~= s@.subrange(at as int, p as int));
    while end > at && (s[end - 1] == 10 || s[end - 1] == 13)
        invariant
            at <= end <= p <= s@.len(),
            raw == s@.subrange(at as int, p as int),
            trimmed(raw) == trimmed(s@.subrange(at as int, end as int)),
        decreases end,
    {
        assert(s@.subrange(at as int, end as int).drop_last() =~= s@.subrange(at as int, end - 1));
        end = end - 1;
    }
    let line = codec::copy_range(s, at, end);
    proof {
        if p == len {
            assert(raw =~= rest);
        }
    }
    if p == len {
        Line::Found { line, next: p }
    } else {
        Line::Found { line, next: p + 1 }
    }
}

/// Reads the length behind a mark.
fn parse_len(line: &Vec<u8>, max: i64) -> (r: Result<i64, RespError>)
    requires
        line@.len() > 0,
    ensures
        r == length_of(line@.skip(1), max),
{
    let bytes = codec::copy_range(line.as_slice(), 1, line.len());
    assert(bytes@ =~= line@.skip(1));
    if !is_utf8(bytes.as_slice()) {
        return Err(RespError::NotUtf8);
    }
    match text::parse_i64(bytes.as_slice()) {
        None => Err(RespError::NotAnInteger),
        Some(n) => {
            if n > max {
                Err(RespError::OverLimit)
            } else {
                Ok(n)
            }
        },
    }
}

proof fn lemma_word_len(s: Seq<u8>)
    ensures
        0 <= word_len(s) <= s.len(),
        word_len(s) < s.len() ==> is_space(s[word_len(s)]),
        forall|i: int| 0 <= i < word_len(s) ==> !is_space(#[trigger] s[i]),
    decreases s.len(),
{
    if s.len() > 0 && !is_space(s[0]) {
        let rest = s.skip(1);
        lemma_word_len(rest);
        assert forall|i: int| 0 <= i < word_len(s) implies !is_space(#[trigger] s[i]) by {
            if i > 0 {
                assert(rest[i - 1] == s[i]);
            }
        }
    }
}

/// Splits an inline command into its words.
fn split_words(line: &Vec<u8>) -> (r: Vec<Vec<u8>>)
    ensures
        args_view(r@) == words(line@),
{
    let mut r: Vec<Vec<u8>> = Vec::new();
    let mut i: usize = 0;
    assert(line@.skip(0) =~= line@);
    while i < line.len()
        invariant
            i <= line@.len(),
            words(line@) =~= args_view(r@) + words(line@.skip(i as int)),
        decreases line@.len() - i,
    {
        let b: u8 = line[i];
        let ghost rest = line@.skip(i as int);
        if b == 32 || b == 9 || b == 10 || b == 12 || b == 13 {
            assert(rest.skip(1) =~= line@.skip(i + 1));
            i = i + 1;
        } else {
            let start: usize = i;
            while i < line.len() && !(line[i] == 32 || line[i] == 9 || line[i] == 10 || line[i]
                == 12 || line[i] == 13)
                invariant
                    start <= i <= line@.len(),
                    forall|j: int| start <= j < i ==> !is_space(#[trigger] line@[j]),
                decreases line@.len() - i,
            {
                i = i + 1;
            }
            let word = codec::copy_range(line.as_slice(), start, i);
            let ghost before = r@;
            let ghost view = word@;
            r.push(word);
            proof {
                lemma_word_len(rest);
                let n = word_len(rest);
                if n < i - start {
                    assert(rest[n] == line@[start + n]);
                }
                if n > i - start {
                    assert(!is_space(rest[i - start]));
                }
                assert(view =~= rest.take(n));
                assert(rest.skip(n) =~= line@.skip(i as int));
                assert(args_view(r@) =~= args_view(before).push(view));
            }
        }
    }
    r
}

/// Reads one bulk string.
fn read_arg(s: &[u8], at: usize, eof: bool) -> (r: Result<Option<(Vec<u8>, usize)>, RespError>)
    requires
        at <= s@.len(),
    ensures
        match r {
            Ok(Some((arg, next))) => arg_at(s@, at as int, eof) == Ok::<
                Option<(Seq<u8>, int)>,
                RespError,
            >(Some((arg@, next as int))) && at < next <= s@.len(),
            Ok(None) => arg_at(s@, at as int, eof) == Ok::<Option<(Seq<u8>, int)>, RespError>(None),
            Err(e) => arg_at(s@, at as int, eof) == Err::<Option<(Seq<u8>, int)>, RespError>(e),
        },
{
    let (line, next) = match read_line(s, at, eof) {
        Line::More => return Ok(None),
        Line::End => return Err(RespError::ConnectionClosed),
        Line::Found { line, next } => (line, next),
    };
    if line.len() == 0 || line[0] != 36 {
        return Err(RespError::ExpectedBulk);
    }
    let n: i64 = match parse_len(&line, MAX_BULK_LEN) {
        Ok(n) => n,
        Err(e) => return Err(e),
    };
    if n < 0 {
        return Err(RespError::NegativeLength);
    }
    let left: usize = s.len() - next;
    if n as u64 > left as u64 || left - (n as usize) < 2 {
        if eof {
            return Err(RespError::Truncated);
        }
        return Ok(None);
    }
    let size: usize = n as usize;
    Ok(Some((codec::copy_range(s, next, next + size), next + size + 2)))
}

/// Reads the first command from the bytes of a connection, where `eof` says
/// whether the connection has ended. Lengths over the limits are refused as soon
/// as they are read, before their bytes have arrived.
pub fn read_command(s: &[u8], eof: bool) -> (r: Result<ReadStep, RespError>)
    ensures
        match r {
            Ok(step) => command_at(s@, eof) == Ok::<Reading, RespError>(step@),
            Err(e) => command_at(s@, eof) == Err::<Reading, RespError>(e),
        },
        r matches Ok(ReadStep::Command { args, consumed }) ==> 0 < consumed <= s@.len(),
{
    let (line, start) = match read_line(s, 0, eof) {
        Line::More => return Ok(ReadStep::More),
        Line::End => return Ok(ReadStep::Closed),
        Line::Found { line, next } => (line, next),
    };
    if line.len() == 0 || line[0] != 42 {
        return Ok(ReadStep::Command { args: split_words(&line), consumed: start });
    }
    let count: i64 = match parse_len(&line, MAX_ARGS) {
        Ok(n) => n,
        Err(e) => return Err(e),
    };
    let ghost goal = args_from(s@, start as int, count as int, eof);
    let mut args: Vec<Vec<u8>> = Vec::new();
    let mut at: usize = start;
    let mut left: i64 = count;
    assert(args_view(args@) =~= Seq::<Seq<u8>>::empty());
    while left > 0
        invariant
            0 < start <= at <= s@.len(),
            goal == args_from(s@, start as int, count as int, eof),
            command_at(s@, eof) == (match goal {
                Err(e) => Err(e),
                Ok(None) => Ok(Reading::More),
                Ok(Some((args, end))) => Ok(Reading::Command { args, consumed: end }),
            }),
            match args_from(s@, at as int, left as int, eof) {
                Ok(Some((rest, end))) => goal matches Ok(Some((all, last))) && all =~= args_view(
                    args@,
                ) + rest && last == end,
                Ok(None) => goal == Ok::<Option<(Seq<Seq<u8>>, int)>, RespError>(None),
                Err(e) => goal == Err::<Option<(Seq<Seq<u8>>, int)>, RespError>(e),
            },
        decreases left,
    {
        match read_arg(s, at, eof) {
            Err(e) => return Err(e),
            Ok(None) => return Ok(ReadStep::More),
            Ok(Some((arg, next))) => {
                let ghost before = args@;
                let ghost view = arg@;
                args.push(arg);
                assert(args_view(args@) =~= args_view(before).push(view));
                at = next;
                left = left - 1;
            },
        }
    }
    let step = ReadStep::Command { args, consumed: at };
    proof {
        let all = goal->Ok_0->Some_0;
        assert(all.0 =~= args_view(args@));
    }
    Ok(step)
}

// --------------------------------------------------------------------- laws

/// A connection that has ended is never waited for.
pub proof fn an_ended_connection_needs_no_more(s: Seq<u8>)
    ensures
        command_at(s, true) != Ok::<Reading, RespError>(Reading::More),
{
    match line_at(s, 0, true) {
        LineStep::Line { line, next } => {
            if line.len() > 0 && line[0] == 42 {
                if let Ok(n) = length_of(line.skip(1), MAX_ARGS) {
                    lemma_args_need_no_more(s, next, n as int);
                }
            }
        },
        _ => {},
    }
}

proof fn lemma_args_need_no_more(s: Seq<u8>, at: int, n: int)
    ensures
        args_from(s, at, n, true) != Ok::<Option<(Seq<Seq<u8>>, int)>, RespError>(None),
    decreases n,
{
    if n > 0 {
        if let Ok(Some((arg, next))) = arg_at(s, at, true) {
            lemma_args_need_no_more(s, next, n - 1);
        }
    }
}

/// Once a command is complete, or known to be wrong, what arrives behind it makes
/// no difference.
pub proof fn later_bytes_change_nothing(s: Seq<u8>, more: Seq<u8>, eof: bool)
    requires
        command_at(s, false) != Ok::<Reading, RespError>(Reading::More),
    ensures
        command_at(s + more, eof) == command_at(s, false),
{
    lemma_line_is_stable(s, more, 0, eof);
    match line_at(s, 0, false) {
        LineStep::Line { line, next } => {
            if line.len() > 0 && line[0] == 42 {
                if let Ok(n) = length_of(line.skip(1), MAX_ARGS) {
                    lemma_args_are_stable(s, more, next, n as int, eof);
                }
            }
        },
        _ => {},
    }
}

proof fn lemma_line_is_stable(s: Seq<u8>, more: Seq<u8>, at: int, eof: bool)
    requires
        0 <= at <= s.len(),
    ensures
        line_at(s, at, false) is More || line_at(s, at, false) is Line,
        line_at(s, at, false) is Line ==> line_at(s + more, at, eof) == line_at(s, at, false)
            && at < line_at(s, at, false)->next <= s.len(),
{
    let rest = s.skip(at);
    let all = (s + more).skip(at);
    text::lemma_first_of(rest, 10);
    let p = text::first_of(rest, 10);
    assert(all =~= rest + more);
    if p < rest.len() {
        assert forall|i: int| 0 <= i < p implies #[trigger] all[i] != 10 by {
            assert(all[i] == rest[i]);
        }
        text::lemma_first_of_is(all, 10, p);
        assert(all.take(p) =~= rest.take(p));
    }
}

proof fn lemma_args_are_stable(s: Seq<u8>, more: Seq<u8>, at: int, n: int, eof: bool)
    requires
        0 <= at <= s.len(),
        args_from(s, at, n, false) != Ok::<Option<(Seq<Seq<u8>>, int)>, RespError>(None),
    ensures
        args_from(s + more, at, n, eof) == args_from(s, at, n, false),
    decreases n,
{
    if n > 0 {
        lemma_line_is_stable(s, more, at, eof);
        match arg_at(s, at, false) {
            Ok(Some((arg, next))) => {
                let from = line_at(s, at, false)->next;
                assert((s + more).subrange(from, from + arg.len()) =~= s.subrange(
                    from,
                    from + arg.len(),
                ));
                lemma_args_are_stable(s, more, next, n - 1, eof);
            },
            _ => {},
        }
    }
}

/// The bulk strings of a command.
pub open spec fn bulks(args: Seq<Seq<u8>>) -> Seq<u8>
    decreases args.len(),
{
    if args.len() == 0 {
        Seq::empty()
    } else {
        bulk_bytes(args[0]) + bulks(args.skip(1))
    }
}

/// A command as a client sends it.
pub open spec fn command_bytes(args: Seq<Seq<u8>>) -> Seq<u8> {
    marked(42, text::decimal(args.len())) + bulks(args)
}

/// A client's command is read as its arguments, whatever bytes those hold and
/// whatever follows.
pub proof fn commands_read_back(args: Seq<Seq<u8>>, more: Seq<u8>, eof: bool)
    requires
        args.len() <= MAX_ARGS,
        forall|i: int| 0 <= i < args.len() ==> (#[trigger] args[i]).len() <= MAX_BULK_LEN,
    ensures
        command_at(command_bytes(args) + more, eof) == Ok::<Reading, RespError>(
            Reading::Command { args, consumed: command_bytes(args).len() as int },
        ),
{
    let s = command_bytes(args) + more;
    let head = marked(42, text::decimal(args.len()));
    lemma_marked_line(Seq::empty(), 42, args.len() as i64, bulks(args) + more, eof, MAX_ARGS);
    assert(s =~= Seq::<u8>::empty() + head + (bulks(args) + more));
    lemma_bulks(head, args, more, eof);
    assert(s =~= head + bulks(args) + more);
}

/// A number behind a mark is read as a line and a length.
proof fn lemma_marked_line(before: Seq<u8>, mark: u8, n: i64, after: Seq<u8>, eof: bool, max: i64)
    requires
        0 <= n <= max,
        mark == 42 || mark == 36,
    ensures
        ({
            let s = before + marked(mark, text::decimal(n as nat)) + after;
            let next = before.len() + marked(mark, text::decimal(n as nat)).len();
            &&& line_at(s, before.len() as int, eof) == (LineStep::Line {
                line: seq![mark] + text::decimal(n as nat),
                next: next as int,
            })
            &&& length_of((seq![mark] + text::decimal(n as nat)).skip(1), max) == Ok::<
                i64,
                RespError,
            >(n)
        }),
{
    let d = text::decimal(n as nat);
    let line = seq![mark] + d;
    let whole = marked(mark, d);
    let s = before + whole + after;
    let rest = s.skip(before.len() as int);
    text::lemma_decimal(n as nat);
    assert(rest =~= whole + after);
    let p = line.len() as int + 1;
    assert(whole[p] == 10 && whole[p - 1] == 13);
    assert forall|i: int| 0 <= i < p implies #[trigger] rest[i] != 10 by {
        if 0 < i < p - 1 {
            assert(text::is_digit(d[i - 1]));
        }
    }
    text::lemma_first_of_is(rest, 10, p);
    let raw = rest.take(p);
    assert(raw =~= line.push(13));
    assert(raw.drop_last() =~= line);
    assert(trimmed(raw) == line) by {
        reveal_with_fuel(trimmed, 2);
        assert(line.last() == d.last());
        assert(text::is_digit(d[d.len() - 1]));
    }
    assert(line.skip(1) =~= d);
    text::signed_decimal_reads_back(n);
    lemma_digits_are_utf8(d);
}

/// Digits are text.
proof fn lemma_digits_are_utf8(d: Seq<u8>)
    requires
        text::all_digits(d),
    ensures
        vstd::utf8::valid_utf8(d),
{
    let chars = Seq::new(d.len(), |i: int| d[i] as char);
    assert forall|i: int| 0 <= i < chars.len() implies (#[trigger] chars[i]) as u8 == d[i] && (
    chars[i] as u32) < 128 by {
        assert(text::is_digit(d[i]));
    }
    assert(vstd::utf8::is_ascii_chars(chars));
    vstd::utf8::is_ascii_chars_encode_utf8(chars);
    vstd::utf8::encode_utf8_valid_utf8(chars);
    assert(vstd::utf8::encode_utf8(chars) =~= d) by {
        assert forall|i: int| 0 <= i < d.len() implies vstd::utf8::encode_utf8(chars)[i] == d[i] by {
            assert(chars[i] as u8 == d[i]);
        }
    }
}

proof fn lemma_bulks(before: Seq<u8>, args: Seq<Seq<u8>>, more: Seq<u8>, eof: bool)
    requires
        forall|i: int| 0 <= i < args.len() ==> (#[trigger] args[i]).len() <= MAX_BULK_LEN,
    ensures
        args_from(
            before + bulks(args) + more,
            before.len() as int,
            args.len() as int,
            eof,
        ) == Ok::<Option<(Seq<Seq<u8>>, int)>, RespError>(
            Some((args, (before.len() + bulks(args).len()) as int)),
        ),
    decreases args.len(),
{
    let s = before + bulks(args) + more;
    if args.len() == 0 {
        assert(args =~= Seq::<Seq<u8>>::empty());
    } else {
        let arg = args[0];
        let rest = args.skip(1);
        let n = arg.len() as i64;
        let head = marked(36, text::decimal(arg.len()));
        let after = arg + crlf() + bulks(rest) + more;
        assert(s =~= before + head + after);
        lemma_marked_line(before, 36, n, after, eof, MAX_BULK_LEN);
        let next = before.len() + head.len();
        assert(s.subrange(next as int, next + n) =~= arg);
        let taken = before + bulk_bytes(arg);
        assert(s =~= taken + bulks(rest) + more);
        assert forall|i: int| 0 <= i < rest.len() implies (#[trigger] rest[i]).len() <= MAX_BULK_LEN by {
            assert(rest[i] == args[i + 1]);
        }
        lemma_bulks(taken, rest, more, eof);
        assert(seq![arg] + rest =~= args);
    }
}

/// A command that is cut off is an error: never the end of the connection, and
/// never a shorter command.
pub proof fn a_cut_off_command_is_an_error(args: Seq<Seq<u8>>, n: int)
    requires
        1 <= args.len() <= MAX_ARGS,
        forall|i: int| 0 <= i < args.len() ==> (#[trigger] args[i]).len() <= MAX_BULK_LEN,
        0 < n < command_bytes(args).len(),
    ensures
        command_at(command_bytes(args).take(n), true) is Err,
{
    let d = text::decimal(args.len());
    let head = marked(42, d);
    let whole = command_bytes(args);
    let s = whole.take(n);
    text::lemma_decimal(args.len());
    if n < head.len() {
        assert(s =~= head.take(n));
        assert forall|i: int| 0 <= i < s.len() implies #[trigger] s[i] != 10 by {
            if 0 < i <= d.len() {
                assert(text::is_digit(d[i - 1]));
            }
        }
        lemma_last_line(s, 0);
        assert(s.skip(0) =~= s);
        let k = if n - 1 < d.len() { n - 1 } else { d.len() as int };
        let line = seq![42u8] + d.take(k);
        assert(trimmed(s) == line) by {
            assert(d.take(k).len() > 0 ==> text::is_digit(d.take(k).last())) by {
                if k > 0 {
                    assert(text::is_digit(d[k - 1]));
                }
            }
            if n == head.len() - 1 {
                assert(s.drop_last() =~= line);
                assert(trimmed(line) == line);
            } else {
                assert(s =~= line);
            }
        }
        assert(line.skip(1) =~= d.take(k));
        if let Ok(count) = length_of(line.skip(1), MAX_ARGS) {
            lemma_leading_digit(args.len());
            lemma_digits_of_a_prefix(d, k);
            lemma_end_of_line(s);
        }
    } else {
        let q = s.skip(head.len() as int);
        assert(s =~= Seq::<u8>::empty() + head + q);
        lemma_marked_line(Seq::empty(), 42, args.len() as i64, q, true, MAX_ARGS);
        assert(q =~= bulks(args).take(n - head.len()));
        lemma_cut_off_bulks(head, args, n - head.len());
        assert(s =~= head + q);
    }
}

/// At the end of a connection there are no arguments.
proof fn lemma_end_of_line(s: Seq<u8>)
    ensures
        arg_at(s, s.len() as int, true) is Err,
{
    assert(s.skip(s.len() as int).len() == 0);
}

/// Without a line end the rest is one line.
proof fn lemma_last_line(s: Seq<u8>, at: int)
    requires
        0 <= at <= s.len(),
        forall|i: int| at <= i < s.len() ==> #[trigger] s[i] != 10,
    ensures
        line_at(s, at, true) == (if at == s.len() {
            LineStep::End
        } else {
            LineStep::Line { line: trimmed(s.skip(at)), next: s.len() as int }
        }),
{
    let rest = s.skip(at);
    assert forall|i: int| 0 <= i < rest.len() implies #[trigger] rest[i] != 10 by {
        assert(rest[i] == s[at + i]);
    }
    text::lemma_first_of_is(rest, 10, rest.len() as int);
}

/// A number from one on does not begin with a zero.
proof fn lemma_leading_digit(n: nat)
    requires
        n > 0,
    ensures
        text::decimal(n).len() > 0,
        text::decimal(n)[0] != 48,
    decreases n,
{
    if n >= 10 {
        lemma_leading_digit(n / 10);
        assert(text::decimal(n)[0] == text::decimal(n / 10)[0]);
    }
}

/// So what is left of it when it is cut off is no number, or still from one on.
proof fn lemma_digits_of_a_prefix(d: Seq<u8>, k: int)
    requires
        text::all_digits(d),
        d.len() > 0,
        d[0] != 48,
        0 <= k <= d.len(),
    ensures
        text::spec_parse_i64(d.take(k)) matches Some(n) ==> n >= 1,
{
    let p = d.take(k);
    if k > 0 {
        assert(p[0] == d[0]);
        assert(text::is_digit(d[0]));
        lemma_value_of_leading_digit(p);
    }
}

proof fn lemma_value_of_leading_digit(p: Seq<u8>)
    requires
        p.len() > 0,
        p[0] > 48,
    ensures
        text::digits_value(p) >= 1,
    decreases p.len(),
{
    if p.len() == 1 {
        assert(p.drop_last() =~= Seq::<u8>::empty());
        assert(text::digits_value(p.drop_last()) == 0);
    } else {
        lemma_value_of_leading_digit(p.drop_last());
    }
}

proof fn lemma_cut_off_bulks(before: Seq<u8>, args: Seq<Seq<u8>>, n: int)
    requires
        args.len() > 0,
        forall|i: int| 0 <= i < args.len() ==> (#[trigger] args[i]).len() <= MAX_BULK_LEN,
        0 <= n < bulks(args).len(),
    ensures
        args_from(
            before + bulks(args).take(n),
            before.len() as int,
            args.len() as int,
            true,
        ) is Err,
    decreases args.len(),
{
    let q = bulks(args).take(n);
    let s = before + q;
    let at = before.len() as int;
    let arg = args[0];
    let rest = args.skip(1);
    let d = text::decimal(arg.len());
    let head = marked(36, d);
    text::lemma_decimal(arg.len());
    if n < head.len() {
        assert(q =~= head.take(n));
        assert forall|i: int| at <= i < s.len() implies #[trigger] s[i] != 10 by {
            assert(s[i] == head[i - at]);
            if 0 < i - at <= d.len() {
                assert(text::is_digit(d[i - at - 1]));
            }
        }
        lemma_last_line(s, at);
    } else {
        let after = q.skip(head.len() as int);
        assert(s =~= before + head + after);
        lemma_marked_line(before, 36, arg.len() as i64, after, true, MAX_BULK_LEN);
        if n >= bulk_bytes(arg).len() {
            let taken = before + bulk_bytes(arg);
            let m = n - bulk_bytes(arg).len();
            assert(q =~= bulk_bytes(arg) + bulks(rest).take(m));
            assert(s =~= taken + bulks(rest).take(m));
            if rest.len() == 0 {
                assert(bulks(args) =~= bulk_bytes(arg));
            }
            assert forall|i: int| 0 <= i < rest.len() implies (#[trigger] rest[i]).len()
                <= MAX_BULK_LEN by {
                assert(rest[i] == args[i + 1]);
            }
            lemma_cut_off_bulks(taken, rest, m);
        }
    }
}

/// An array of bulk strings is a command: what `write_to` sends, `read_command`
/// reads.
pub proof fn arrays_of_bulk_strings_are_commands(items: Vec<Reply>, args: Seq<Seq<u8>>)
    requires
        items@.len() == args.len(),
        forall|i: int|
            0 <= i < args.len() ==> (#[trigger] items@[i] matches Reply::Bulk(b) && b@ == args[i]),
    ensures
        reply_bytes(Reply::Array(items)) == command_bytes(args),
{
    lemma_replies_are_bulks(items@, args);
}

proof fn lemma_replies_are_bulks(items: Seq<Reply>, args: Seq<Seq<u8>>)
    requires
        items.len() == args.len(),
        forall|i: int|
            0 <= i < args.len() ==> (#[trigger] items[i] matches Reply::Bulk(b) && b@ == args[i]),
    ensures
        replies_bytes(items) == bulks(args),
    decreases args.len(),
{
    if args.len() > 0 {
        let last = args.len() - 1;
        lemma_replies_are_bulks(items.drop_last(), args.drop_last());
        lemma_bulks_push(args.drop_last(), args.last());
        assert(args.drop_last().push(args.last()) =~= args);
        assert(items[last] == items.last());
        assert(reply_bytes(items.last()) == bulk_bytes(args.last()));
    }
}

proof fn lemma_bulks_push(args: Seq<Seq<u8>>, arg: Seq<u8>)
    ensures
        bulks(args.push(arg)) == bulks(args) + bulk_bytes(arg),
    decreases args.len(),
{
    if args.len() == 0 {
        assert(args.push(arg).skip(1) =~= args);
        assert(bulks(args.push(arg)) =~= bulks(args) + bulk_bytes(arg));
    } else {
        lemma_bulks_push(args.skip(1), arg);
        assert(args.push(arg).skip(1) =~= args.skip(1).push(arg));
        assert(bulks(args.push(arg)) =~= bulks(args) + bulk_bytes(arg));
    }
}

/// Appends a command as a client sends it.
pub fn write_command(out: &mut Vec<u8>, args: &[Vec<u8>])
    ensures
        final(out)@ == old(out)@ + command_bytes(args_view(args@)),
{
    let ghost start = out@;
    let ghost all = args_view(args@);
    out.push(42);
    text::put_decimal(out, args.len() as u64);
    put_crlf(out);
    let ghost head = marked(42, text::decimal(all.len()));
    let mut i: usize = 0;
    assert(all.take(0) =~= Seq::<Seq<u8>>::empty());
    assert(out@ =~= start + head + bulks(all.take(0)));
    while i < args.len()
        invariant
            i <= args@.len(),
            all == args_view(args@),
            out@ =~= start + head + bulks(all.take(i as int)),
        decreases args@.len() - i,
    {
        out.push(36);
        text::put_decimal(out, args[i].len() as u64);
        put_crlf(out);
        codec::put_bytes(out, args[i].as_slice());
        put_crlf(out);
        proof {
            lemma_bulks_push(all.take(i as int), all[i as int]);
            assert(all.take(i + 1) =~= all.take(i as int).push(all[i as int]));
            assert(out@ =~= start + head + (bulks(all.take(i as int)) + bulk_bytes(all[i as int])));
        }
        i = i + 1;
    }
    assert(all.take(i as int) =~= all);
    assert(out@ =~= start + command_bytes(all));
}

// ------------------------------------------------------- what stands on the wire

/// What separates the words of a line: spaces, tabs, form feeds and carriage
/// returns.
pub open spec fn separates(gap: Seq<u8>) -> bool {
    forall|i: int|
        0 <= i < gap.len() ==> #[trigger] gap[i] == 32 || gap[i] == 9 || gap[i] == 12 || gap[i] == 13
}

/// One word: something, and nothing in it that separates words or ends a line.
pub open spec fn one_word(w: Seq<u8>) -> bool {
    &&& w.len() > 0
    &&& forall|i: int|
        0 <= i < w.len() ==> #[trigger] w[i] != 32 && w[i] != 9 && w[i] != 10 && w[i] != 12 && w[i]
            != 13
}

/// A line of words: a gap, a word, a gap, and so on to the last gap.
pub open spec fn spaced(ws: Seq<Seq<u8>>, gaps: Seq<Seq<u8>>) -> Seq<u8>
    decreases ws.len(),
{
    if ws.len() == 0 {
        gaps[0]
    } else {
        gaps[0] + ws[0] + spaced(ws.skip(1), gaps.skip(1))
    }
}

/// `gaps` can stand around `ws`: there is something between any two words.
pub open spec fn fits_around(ws: Seq<Seq<u8>>, gaps: Seq<Seq<u8>>) -> bool {
    &&& gaps.len() == ws.len() + 1
    &&& forall|i: int| 0 <= i < ws.len() ==> one_word(#[trigger] ws[i])
    &&& forall|i: int| 0 <= i < gaps.len() ==> separates(#[trigger] gaps[i])
    &&& forall|i: int| 0 < i < ws.len() ==> (#[trigger] gaps[i]).len() > 0
}

proof fn lemma_gap(gap: Seq<u8>, rest: Seq<u8>)
    requires
        separates(gap),
    ensures
        words(gap + rest) == words(rest),
    decreases gap.len(),
{
    if gap.len() == 0 {
        assert(gap + rest =~= rest);
    } else {
        let less = gap.skip(1);
        assert forall|i: int| 0 <= i < less.len() implies #[trigger] less[i] == 32 || less[i] == 9
            || less[i] == 12 || less[i] == 13 by {
            assert(less[i] == gap[i + 1]);
        }
        assert((gap + rest)[0] == gap[0]);
        assert((gap + rest).skip(1) =~= less + rest);
        lemma_gap(less, rest);
    }
}

proof fn lemma_word(w: Seq<u8>, rest: Seq<u8>)
    requires
        one_word(w),
        rest.len() > 0 ==> is_space(rest[0]),
    ensures
        words(w + rest) == seq![w] + words(rest),
{
    let s = w + rest;
    lemma_word_len(s);
    let n = word_len(s);
    assert(s[0] == w[0]);
    if n < w.len() {
        assert(s[n] == w[n]);
    }
    if n > w.len() {
        assert(s[w.len() as int] == rest[0]);
    }
    assert(s.take(n) =~= w);
    assert(s.skip(n) =~= rest);
}

proof fn lemma_spaced(ws: Seq<Seq<u8>>, gaps: Seq<Seq<u8>>)
    requires
        fits_around(ws, gaps),
    ensures
        words(spaced(ws, gaps)) == ws,
        forall|i: int| 0 <= i < spaced(ws, gaps).len() ==> #[trigger] spaced(ws, gaps)[i] != 10,
        ws.len() > 0 && gaps[0].len() == 0 ==> spaced(ws, gaps).len() > 0 && spaced(ws, gaps)[0]
            == ws[0][0],
        gaps[0].len() > 0 ==> spaced(ws, gaps).len() > 0 && is_space(spaced(ws, gaps)[0]),
    decreases ws.len(),
{
    let s = spaced(ws, gaps);
    assert(separates(gaps[0]));
    if gaps[0].len() > 0 {
        assert(gaps[0][0] == s[0]);
    }
    if ws.len() == 0 {
        lemma_gap(gaps[0], Seq::empty());
        assert(gaps[0] + Seq::<u8>::empty() =~= gaps[0]);
        assert(ws =~= Seq::<Seq<u8>>::empty());
    } else {
        let w = ws[0];
        let less = ws.skip(1);
        let behind = gaps.skip(1);
        assert(one_word(ws[0]));
        assert forall|i: int| 0 <= i < less.len() implies one_word(#[trigger] less[i]) by {
            assert(one_word(ws[i + 1]));
        }
        assert forall|i: int| 0 <= i < behind.len() implies separates(#[trigger] behind[i]) by {
            assert(separates(gaps[i + 1]));
        }
        assert forall|i: int| 0 < i < less.len() implies (#[trigger] behind[i]).len() > 0 by {
            assert(gaps[i + 1].len() > 0);
        }
        lemma_spaced(less, behind);
        let rest = spaced(less, behind);
        if less.len() > 0 {
            assert(gaps[1].len() > 0);
        }
        if rest.len() > 0 {
            assert(behind[0] == gaps[1]);
            if less.len() == 0 {
                assert(separates(gaps[1]));
                assert(rest[0] == gaps[1][0]);
            }
        }
        lemma_word(w, rest);
        lemma_gap(gaps[0], w + rest);
        assert(s =~= gaps[0] + (w + rest));
        assert(seq![w] + less =~= ws);
        assert forall|i: int| 0 <= i < s.len() implies #[trigger] s[i] != 10 by {
            if i < gaps[0].len() {
                assert(s[i] == gaps[0][i]);
            } else if i < gaps[0].len() + w.len() {
                assert(s[i] == w[i - gaps[0].len()]);
            } else {
                assert(s[i] == rest[i - gaps[0].len() - w.len()]);
            }
        }
    }
}

/// A space behind a line adds no word.
proof fn lemma_space_behind(s: Seq<u8>, b: u8)
    requires
        is_space(b),
    ensures
        words(s.push(b)) == words(s),
    decreases s.len(),
{
    let t = s.push(b);
    if s.len() == 0 {
        assert(t.skip(1) =~= s);
    } else if is_space(s[0]) {
        assert(t.skip(1) =~= s.skip(1).push(b));
        lemma_space_behind(s.skip(1), b);
    } else {
        lemma_word_len(s);
        lemma_word_len(t);
        let n = word_len(s);
        let m = word_len(t);
        if n < m {
            assert(!is_space(t[n]));
        }
        if m < n {
            assert(!is_space(s[m]));
            assert(t[m] == s[m]);
        }
        assert(t.take(n) =~= s.take(n));
        assert(t.skip(n) =~= s.skip(n).push(b));
        lemma_space_behind(s.skip(n), b);
    }
}

proof fn lemma_trimming_keeps_the_words(s: Seq<u8>)
    ensures
        words(trimmed(s)) == words(s),
        trimmed(s).len() <= s.len(),
        trimmed(s).len() > 0 ==> trimmed(s)[0] == s[0],
    decreases s.len(),
{
    if s.len() > 0 && (s.last() == 10 || s.last() == 13) {
        lemma_space_behind(s.drop_last(), s.last());
        assert(s.drop_last().push(s.last()) =~= s);
        lemma_trimming_keeps_the_words(s.drop_last());
    }
}

/// The arguments of an inline command are the words of its line: all of them,
/// unchanged and in order, whatever stands between them and whatever follows the
/// line. Only a line that begins with a star is no such command.
pub proof fn inline_commands_are_their_words(
    ws: Seq<Seq<u8>>,
    gaps: Seq<Seq<u8>>,
    more: Seq<u8>,
    eof: bool,
)
    requires
        fits_around(ws, gaps),
        ws.len() > 0 && gaps[0].len() == 0 ==> ws[0][0] != 42,
    ensures
        command_at(spaced(ws, gaps) + seq![10u8] + more, eof) == Ok::<Reading, RespError>(
            Reading::Command { args: ws, consumed: spaced(ws, gaps).len() as int + 1 },
        ),
        spaced(ws, gaps).len() > 0 ==> command_at(spaced(ws, gaps), true) == Ok::<
            Reading,
            RespError,
        >(Reading::Command { args: ws, consumed: spaced(ws, gaps).len() as int }),
{
    let line = spaced(ws, gaps);
    let s = line + seq![10u8] + more;
    lemma_spaced(ws, gaps);
    lemma_trimming_keeps_the_words(line);
    assert(s.skip(0) =~= s);
    assert(s[line.len() as int] == 10);
    assert forall|i: int| 0 <= i < line.len() implies #[trigger] s[i] != 10 by {
        assert(s[i] == line[i]);
    }
    text::lemma_first_of_is(s, 10, line.len() as int);
    assert(s.take(line.len() as int) =~= line);
    assert(line.skip(0) =~= line);
    text::lemma_first_of_is(line, 10, line.len() as int);
}

/// A line that ends with a carriage return and a line feed.
proof fn lemma_line(before: Seq<u8>, line: Seq<u8>, after: Seq<u8>, eof: bool)
    requires
        forall|i: int| 0 <= i < line.len() ==> #[trigger] line[i] != 10,
        line.len() > 0 ==> line.last() != 13,
    ensures
        line_at(before + (line + seq![13u8, 10u8]) + after, before.len() as int, eof) == (
        LineStep::Line { line, next: (before.len() + line.len() + 2) as int }),
{
    let whole = line + seq![13u8, 10u8];
    let s = before + whole + after;
    let rest = s.skip(before.len() as int);
    assert(rest =~= whole + after);
    let p = line.len() as int + 1;
    assert forall|i: int| 0 <= i < p implies #[trigger] rest[i] != 10 by {
        if i < line.len() {
            assert(rest[i] == line[i]);
        }
    }
    text::lemma_first_of_is(rest, 10, p);
    let raw = rest.take(p);
    assert(raw =~= line.push(13));
    assert(raw.drop_last() =~= line);
    reveal_with_fuel(trimmed, 2);
}

proof fn lemma_number_line(mark: u8, n: int)
    requires
        mark != 10,
        mark != 13,
        i64::MIN <= n <= i64::MAX,
    ensures
        ({
            let line = seq![mark] + text::signed_decimal(n);
            &&& line.len() > 1
            &&& line.last() != 13
            &&& forall|i: int| 0 <= i < line.len() ==> #[trigger] line[i] != 10
            &&& line.skip(1) == text::signed_decimal(n)
            &&& vstd::utf8::valid_utf8(text::signed_decimal(n))
            &&& text::spec_parse_i64(text::signed_decimal(n)) == Some(n as i64)
        }),
{
    let d = text::decimal(if n < 0 {
        (-n) as nat
    } else {
        n as nat
    });
    let t = text::signed_decimal(n);
    let line = seq![mark] + t;
    text::lemma_decimal(if n < 0 {
        (-n) as nat
    } else {
        n as nat
    });
    text::signed_decimal_reads_back(n as i64);
    assert(line.skip(1) =~= t);
    assert(text::is_digit(d[d.len() - 1]));
    assert forall|i: int| 0 <= i < line.len() implies #[trigger] line[i] != 10 by {
        let k: int = if n < 0 {
            2
        } else {
            1
        };
        if i >= k {
            assert(text::is_digit(d[i - k]));
        }
    }
    let chars = Seq::new(t.len(), |i: int| t[i] as char);
    assert forall|i: int| 0 <= i < chars.len() implies (#[trigger] chars[i]) as u8 == t[i] && (
    chars[i] as u32) < 128 by {
        if n < 0 && i > 0 {
            assert(text::is_digit(d[i - 1]));
        } else if n >= 0 {
            assert(text::is_digit(d[i]));
        }
    }
    assert(vstd::utf8::is_ascii_chars(chars));
    vstd::utf8::is_ascii_chars_encode_utf8(chars);
    vstd::utf8::encode_utf8_valid_utf8(chars);
    assert(vstd::utf8::encode_utf8(chars) =~= t) by {
        assert forall|i: int| 0 <= i < t.len() implies vstd::utf8::encode_utf8(chars)[i] == t[i] by {
            assert(chars[i] as u8 == t[i]);
        }
    }
}

/// An array of more than 1024 arguments is refused as soon as its count is read,
/// and one of none is an empty command.
pub proof fn argument_counts_have_a_limit(n: i64, more: Seq<u8>, eof: bool)
    requires
        n > 1024 || n <= 0,
    ensures
        command_at(
            seq![42u8] + text::signed_decimal(n as int) + seq![13u8, 10u8] + more,
            eof,
        ) == (if n > 1024 {
            Err(RespError::OverLimit)
        } else {
            Ok(
                Reading::Command {
                    args: Seq::empty(),
                    consumed: text::signed_decimal(n as int).len() as int + 3,
                },
            )
        }),
{
    let line = seq![42u8] + text::signed_decimal(n as int);
    let none = Seq::<u8>::empty();
    lemma_number_line(42, n as int);
    lemma_line(none, line, more, eof);
    assert(none + (line + seq![13u8, 10u8]) + more =~= line + seq![13u8, 10u8] + more);
}

/// Where an argument behind good ones is refused, so is the command.
proof fn lemma_bad_argument(
    before: Seq<u8>,
    args: Seq<Seq<u8>>,
    more: Seq<u8>,
    extra: int,
    e: RespError,
    eof: bool,
)
    requires
        forall|i: int| 0 <= i < args.len() ==> (#[trigger] args[i]).len() <= MAX_BULK_LEN,
        1 <= extra,
        arg_at(before + bulks(args) + more, (before.len() + bulks(args).len()) as int, eof)
            == Err::<Option<(Seq<u8>, int)>, RespError>(e),
    ensures
        args_from(
            before + bulks(args) + more,
            before.len() as int,
            args.len() + extra,
            eof,
        ) == Err::<Option<(Seq<Seq<u8>>, int)>, RespError>(e),
    decreases args.len(),
{
    let s = before + bulks(args) + more;
    if args.len() > 0 {
        let arg = args[0];
        let rest = args.skip(1);
        let n = arg.len() as i64;
        let head = marked(36, text::decimal(arg.len()));
        let after = arg + crlf() + bulks(rest) + more;
        assert(s =~= before + head + after);
        lemma_marked_line(before, 36, n, after, eof, MAX_BULK_LEN);
        let next = before.len() + head.len();
        assert(s.subrange(next as int, next + n) =~= arg);
        let taken = before + bulk_bytes(arg);
        assert(s =~= taken + bulks(rest) + more);
        assert forall|i: int| 0 <= i < rest.len() implies (#[trigger] rest[i]).len() <= MAX_BULK_LEN by {
            assert(rest[i] == args[i + 1]);
        }
        lemma_bad_argument(taken, rest, more, extra, e, eof);
    }
}

/// The bulk strings of a command, one behind the other: each a dollar sign, its
/// length, a line end, its bytes, and a line end.
proof fn lemma_pieces(args: Seq<Seq<u8>>, pieces: Seq<Seq<u8>>)
    requires
        pieces.len() == args.len(),
        forall|i: int|
            0 <= i < args.len() ==> #[trigger] pieces[i] == seq![36u8] + text::decimal(
                args[i].len(),
            ) + seq![13u8, 10u8] + args[i] + seq![13u8, 10u8],
    ensures
        pieces.flatten() == bulks(args),
    decreases args.len(),
{
    if args.len() > 0 {
        let rest = pieces.skip(1);
        assert forall|i: int| 0 <= i < args.len() - 1 implies #[trigger] rest[i] == seq![36u8]
            + text::decimal(args.skip(1)[i].len()) + seq![13u8, 10u8] + args.skip(1)[i] + seq![
            13u8,
            10u8,
        ] by {
            assert(pieces[i + 1] == rest[i]);
        }
        lemma_pieces(args.skip(1), rest);
        assert(pieces.drop_first() =~= rest);
        assert(pieces[0] =~= bulk_bytes(args[0]));
    }
}

/// An array of up to 1024 bulk strings of up to 64 MiB each is read as a command
/// with exactly these bytes as its arguments, whatever they hold and whatever
/// follows.
pub proof fn arrays_are_read_argument_by_argument(
    args: Seq<Seq<u8>>,
    pieces: Seq<Seq<u8>>,
    more: Seq<u8>,
    eof: bool,
)
    requires
        args.len() <= 1024,
        forall|i: int| 0 <= i < args.len() ==> (#[trigger] args[i]).len() <= 67_108_864,
        pieces.len() == args.len(),
        forall|i: int|
            0 <= i < args.len() ==> #[trigger] pieces[i] == seq![36u8] + text::decimal(
                args[i].len(),
            ) + seq![13u8, 10u8] + args[i] + seq![13u8, 10u8],
    ensures
        ({
            let sent = seq![42u8] + text::decimal(args.len()) + seq![13u8, 10u8] + pieces.flatten();
            &&& sent == command_bytes(args)
            &&& command_at(sent + more, eof) == Ok::<Reading, RespError>(
                Reading::Command { args, consumed: sent.len() as int },
            )
        }),
{
    lemma_pieces(args, pieces);
    commands_read_back(args, more, eof);
    assert(seq![42u8] + text::decimal(args.len()) + seq![13u8, 10u8] + pieces.flatten()
        =~= command_bytes(args));
}

/// An argument longer than 64 MiB, or of a negative length, is refused as soon as
/// its length is read, behind however many arguments it comes.
pub proof fn argument_lengths_have_a_limit(
    args: Seq<Seq<u8>>,
    count: int,
    n: i64,
    more: Seq<u8>,
    eof: bool,
)
    requires
        args.len() < count <= 1024,
        forall|i: int| 0 <= i < args.len() ==> (#[trigger] args[i]).len() <= 67_108_864,
        n < 0 || n > 67_108_864,
    ensures
        command_at(
            seq![42u8] + text::decimal(count as nat) + seq![13u8, 10u8] + bulks(args) + (seq![36u8]
                + text::signed_decimal(n as int) + seq![13u8, 10u8]) + more,
            eof,
        ) == Err::<Reading, RespError>(
            if n < 0 {
                RespError::NegativeLength
            } else {
                RespError::OverLimit
            },
        ),
{
    let line = seq![36u8] + text::signed_decimal(n as int);
    let bad = line + seq![13u8, 10u8];
    lemma_number_line(36, n as int);
    lemma_refused(args, count, line, more, eof);
    assert(seq![42u8] + text::decimal(count as nat) + seq![13u8, 10u8] + bulks(args) + (seq![36u8]
        + text::signed_decimal(n as int) + seq![13u8, 10u8]) + more =~= marked(
        42,
        text::decimal(count as nat),
    ) + bulks(args) + (bad + more));
}

/// A line behind some arguments of an array that cannot begin another one.
proof fn lemma_refused(args: Seq<Seq<u8>>, count: int, line: Seq<u8>, more: Seq<u8>, eof: bool)
    requires
        args.len() < count <= 1024,
        forall|i: int| 0 <= i < args.len() ==> (#[trigger] args[i]).len() <= 67_108_864,
        forall|i: int| 0 <= i < line.len() ==> #[trigger] line[i] != 10,
        line.len() > 0 ==> line.last() != 13,
    ensures
        ({
            let s = marked(42, text::decimal(count as nat)) + bulks(args) + (line + seq![13u8, 10u8]
                + more);
            &&& line.len() == 0 || line[0] != 36 ==> command_at(s, eof) == Err::<
                Reading,
                RespError,
            >(RespError::ExpectedBulk)
            &&& line.len() > 0 && line[0] == 36 ==> (match length_of(line.skip(1), MAX_BULK_LEN) {
                Err(e) => command_at(s, eof) == Err::<Reading, RespError>(e),
                Ok(n) => n < 0 ==> command_at(s, eof) == Err::<Reading, RespError>(
                    RespError::NegativeLength,
                ),
            })
        }),
{
    let head = marked(42, text::decimal(count as nat));
    let bad = line + seq![13u8, 10u8];
    let s = head + bulks(args) + (bad + more);
    let none = Seq::<u8>::empty();
    lemma_marked_line(none, 42, count as i64, bulks(args) + (bad + more), eof, MAX_ARGS);
    assert(none + head + (bulks(args) + (bad + more)) =~= s);
    let before = head + bulks(args);
    lemma_line(before, line, more, eof);
    assert(before + bad + more =~= s);
    match arg_at(s, before.len() as int, eof) {
        Err(e) => {
            lemma_bad_argument(head, args, bad + more, count - args.len(), e, eof);
        },
        _ => {},
    }
}

/// Within an array only bulk strings are accepted: a line that does not begin
/// with a dollar sign is refused, behind however many arguments it comes.
pub proof fn arrays_hold_only_bulk_strings(
    args: Seq<Seq<u8>>,
    count: int,
    line: Seq<u8>,
    more: Seq<u8>,
    eof: bool,
)
    requires
        args.len() < count <= 1024,
        forall|i: int| 0 <= i < args.len() ==> (#[trigger] args[i]).len() <= 67_108_864,
        forall|i: int| 0 <= i < line.len() ==> #[trigger] line[i] != 10 && line[i] != 13,
        line.len() > 0 ==> line[0] != 36,
    ensures
        command_at(
            seq![42u8] + text::decimal(count as nat) + seq![13u8, 10u8] + bulks(args) + (line
                + seq![13u8, 10u8]) + more,
            eof,
        ) == Err::<Reading, RespError>(RespError::ExpectedBulk),
{
    lemma_refused(args, count, line, more, eof);
    assert(seq![42u8] + text::decimal(count as nat) + seq![13u8, 10u8] + bulks(args) + (line + seq![
        13u8,
        10u8,
    ]) + more =~= marked(42, text::decimal(count as nat)) + bulks(args) + (line + seq![
        13u8,
        10u8,
    ] + more));
}

/// Every reply on the wire: its mark, its text or number, and a line end; a bulk
/// string with its length in front and its bytes whole; an array as its length
/// and then its items.
pub proof fn replies_on_the_wire(r: Reply)
    ensures
        reply_bytes(r) == (match r {
            Reply::Simple(t) => seq![43u8] + vstd::utf8::encode_utf8(t@) + seq![13u8, 10u8],
            Reply::Error(t) => seq![45u8] + vstd::utf8::encode_utf8(t@) + seq![13u8, 10u8],
            Reply::Integer(n) => seq![58u8] + text::signed_decimal(n as int) + seq![13u8, 10u8],
            Reply::Nil => seq![36u8, 45u8, 49u8, 13u8, 10u8],
            Reply::Bulk(b) => seq![36u8] + text::decimal(b@.len()) + seq![13u8, 10u8] + b@ + seq![
                13u8,
                10u8,
            ],
            Reply::Array(items) => seq![42u8] + text::decimal(items@.len()) + seq![13u8, 10u8]
                + items@.map_values(|item: Reply| reply_bytes(item)).flatten(),
        }),
{
    match r {
        Reply::Array(items) => {
            lemma_items(items@);
        },
        _ => {},
    }
}

proof fn lemma_items(items: Seq<Reply>)
    ensures
        replies_bytes(items) == items.map_values(|item: Reply| reply_bytes(item)).flatten(),
    decreases items.len(),
{
    let all = items.map_values(|item: Reply| reply_bytes(item));
    if items.len() > 0 {
        lemma_items(items.drop_last());
        let some = items.drop_last().map_values(|item: Reply| reply_bytes(item));
        assert(all.drop_last() =~= some);
        assert(all =~= some.push(reply_bytes(items.last())));
        some.lemma_flatten_push(reply_bytes(items.last()));
    }
}

/// What is shown of arguments is each argument as it is.
pub proof fn arguments_are_shown_one_by_one(args: Seq<Vec<u8>>, i: int)
    requires
        0 <= i < args.len(),
    ensures
        args_view(args).len() == args.len(),
        args_view(args)[i] == args[i]@,
{
}

/// A count or a length that is no text, or no number, is refused: as the count of
/// an array, and as the length of an argument behind however many good ones.
pub proof fn lengths_have_to_be_numbers(
    args: Seq<Seq<u8>>,
    count: int,
    bad: Seq<u8>,
    more: Seq<u8>,
    eof: bool,
)
    requires
        args.len() < count <= 1024,
        forall|i: int| 0 <= i < args.len() ==> (#[trigger] args[i]).len() <= 67_108_864,
        forall|i: int| 0 <= i < bad.len() ==> #[trigger] bad[i] != 10 && bad[i] != 13,
        text::spec_parse_i64(bad) is None || !vstd::utf8::valid_utf8(bad),
    ensures
        ({
            let e = if vstd::utf8::valid_utf8(bad) {
                RespError::NotAnInteger
            } else {
                RespError::NotUtf8
            };
            &&& command_at(seq![42u8] + bad + seq![13u8, 10u8] + more, eof) == Err::<
                Reading,
                RespError,
            >(e)
            &&& command_at(
                seq![42u8] + text::decimal(count as nat) + seq![13u8, 10u8] + bulks(args) + (seq![
                    36u8,
                ] + bad + seq![13u8, 10u8]) + more,
                eof,
            ) == Err::<Reading, RespError>(e)
        }),
{
    let none = Seq::<u8>::empty();
    let first = seq![42u8] + bad;
    let line = seq![36u8] + bad;
    assert(first.skip(1) =~= bad);
    assert(line.skip(1) =~= bad);
    if bad.len() > 0 {
        assert(bad[bad.len() - 1] != 13);
    }
    assert forall|i: int| 0 <= i < line.len() implies #[trigger] line[i] != 10 by {
        if i > 0 {
            assert(bad[i - 1] != 10);
        }
    }
    assert forall|i: int| 0 <= i < first.len() implies #[trigger] first[i] != 10 by {
        if i > 0 {
            assert(bad[i - 1] != 10);
        }
    }
    lemma_line(none, first, more, eof);
    assert(none + (first + seq![13u8, 10u8]) + more =~= first + seq![13u8, 10u8] + more);
    lemma_refused(args, count, line, more, eof);
    assert(seq![42u8] + text::decimal(count as nat) + seq![13u8, 10u8] + bulks(args) + (line + seq![
        13u8,
        10u8,
    ]) + more =~= marked(42, text::decimal(count as nat)) + bulks(args) + (line + seq![13u8, 10u8]
        + more));
}

/// The bytes break the protocol unless they only end too early, and each error has
/// its words.
pub proof fn errors_have_their_words(e: RespError)
    ensures
        e.spec_is_protocol_error() == (match e {
            RespError::ConnectionClosed => false,
            RespError::Truncated => false,
            _ => true,
        }),
        e.spec_message() == (match e {
            RespError::ExpectedBulk => "expected a bulk string argument"@,
            RespError::NegativeLength => "negative bulk string length"@,
            RespError::NotUtf8 => "length is not valid UTF-8"@,
            RespError::NotAnInteger => "length is not an integer"@,
            RespError::OverLimit => "length exceeds the protocol limit"@,
            RespError::ConnectionClosed => "connection closed mid-command"@,
            RespError::Truncated => "failed to fill whole buffer"@,
        }),
{
}

} // verus!
