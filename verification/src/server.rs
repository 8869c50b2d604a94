//! What the server does with a command, and with what it reads from a
//! connection. The store is asked from outside: a command either has an answer,
//! or says what to ask the store.
use crate::order;
use crate::resp;
use crate::resp::{ReadStep, Reply, RespError};
use crate::sstable::writer;
use crate::text;
use vstd::prelude::*;

verus! {

/// What a command leads to.
pub enum Outcome {
    Nothing,
    Reply(Reply),
    Quit,
}

/// What a command leads to, with a reply as its bytes on the wire.
pub enum Answer {
    Nothing,
    Reply(Seq<u8>),
    Quit,
}

pub open spec fn outcome_view(o: Outcome) -> Answer {
    match o {
        Outcome::Nothing => Answer::Nothing,
        Outcome::Reply(r) => Answer::Reply(resp::reply_bytes(r)),
        Outcome::Quit => Answer::Quit,
    }
}

/// A command that was understood.
pub enum Request {
    /// It needs nothing from the store.
    Answer(Outcome),
    /// Read a key, and answer with [`get_reply`].
    Get(Vec<u8>),
    /// Write a key, and answer with [`set_reply`].
    Put { key: Vec<u8>, value: Vec<u8> },
    /// Delete keys, step by step.
    Del(Deletion),
}

/// The same, as contracts speak of it.
pub enum Meaning {
    Answer(Answer),
    Get(Seq<u8>),
    Put { key: Seq<u8>, value: Seq<u8> },
    /// Delete `keys`, of which `next` have been dealt with and `removed` were
    /// there.
    Del { keys: Seq<Seq<u8>>, next: int, removed: int },
}

pub open spec fn request_view(r: Request) -> Meaning {
    match r {
        Request::Answer(o) => Meaning::Answer(outcome_view(o)),
        Request::Get(key) => Meaning::Get(key@),
        Request::Put { key, value } => Meaning::Put { key: key@, value: value@ },
        Request::Del(d) => Meaning::Del {
            keys: d.spec_keys(),
            next: d.spec_next(),
            removed: d.spec_removed(),
        },
    }
}

/// `+text`
pub open spec fn simple(t: Seq<char>) -> Answer {
    Answer::Reply(resp::marked(43, text::utf8(t)))
}

/// `-text`
pub open spec fn error(t: Seq<char>) -> Answer {
    Answer::Reply(resp::marked(45, text::utf8(t)))
}

pub open spec fn wrong_arity(name: Seq<char>) -> Seq<char> {
    "ERR wrong number of arguments for '"@ + name + "' command"@
}

pub open spec fn unknown(name: Seq<char>) -> Seq<char> {
    "ERR unknown command '"@ + name + "'"@
}

/// What a command means.
pub open spec fn meaning(args: Seq<Seq<u8>>) -> Meaning {
    let n = args.len();
    if n == 0 {
        Meaning::Answer(Answer::Nothing)
    } else {
        let name = text::upper(args[0]);
        if name == text::utf8("PING"@) {
            if n == 1 {
                Meaning::Answer(simple("PONG"@))
            } else if n == 2 {
                Meaning::Answer(Answer::Reply(resp::bulk_bytes(args[1])))
            } else {
                Meaning::Answer(error(wrong_arity("ping"@)))
            }
        } else if name == text::utf8("ECHO"@) {
            if n == 2 {
                Meaning::Answer(Answer::Reply(resp::bulk_bytes(args[1])))
            } else {
                Meaning::Answer(error(wrong_arity("echo"@)))
            }
        } else if name == text::utf8("QUIT"@) {
            Meaning::Answer(Answer::Quit)
        } else if name == text::utf8("COMMAND"@) {
            // Clients ask for this when they connect, and are happy with
            // nothing.
            Meaning::Answer(Answer::Reply(resp::marked(42, text::decimal(0))))
        } else if name == text::utf8("GET"@) {
            if n == 2 {
                Meaning::Get(args[1])
            } else {
                Meaning::Answer(error(wrong_arity("get"@)))
            }
        } else if name == text::utf8("SET"@) {
            if n == 3 {
                Meaning::Put { key: args[1], value: args[2] }
            } else {
                Meaning::Answer(error(wrong_arity("set"@)))
            }
        } else if name == text::utf8("DEL"@) {
            if n >= 2 {
                Meaning::Del { keys: args.skip(1), next: 0, removed: 0 }
            } else {
                Meaning::Answer(error(wrong_arity("del"@)))
            }
        } else {
            Meaning::Answer(error(unknown(text::shown(args[0]))))
        }
    }
}

/// The name of a command that the server knows.
pub open spec fn known(name: Seq<u8>) -> bool {
    let u = text::upper(name);
    ||| u == text::utf8("PING"@)
    ||| u == text::utf8("ECHO"@)
    ||| u == text::utf8("QUIT"@)
    ||| u == text::utf8("COMMAND"@)
    ||| u == text::utf8("GET"@)
    ||| u == text::utf8("SET"@)
    ||| u == text::utf8("DEL"@)
}

/// The case of a command's name makes no difference.
pub proof fn command_names_are_case_insensitive(a: Seq<Seq<u8>>, b: Seq<Seq<u8>>)
    requires
        a.len() == b.len(),
        a.len() > 0,
        known(a[0]),
        text::upper(a[0]) == text::upper(b[0]),
        a.skip(1) == b.skip(1),
    ensures
        meaning(a) == meaning(b),
{
    assert forall|i: int| 1 <= i < a.len() implies a[i] == b[i] by {
        assert(a.skip(1)[i - 1] == b.skip(1)[i - 1]);
    }
}

/// An error reply of three parts.
fn error_reply(head: &str, middle: &str, tail: &str) -> (r: Reply)
    ensures
        resp::reply_bytes(r) == resp::marked(45, text::utf8(head@ + middle@ + tail@)),
{
    let mut t: String = head.to_string();
    t.append(middle);
    t.append(tail);
    Reply::Error(t)
}

fn arity_reply(name: &str) -> (r: Request)
    ensures
        request_view(r) == Meaning::Answer(error(wrong_arity(name@))),
{
    Request::Answer(
        Outcome::Reply(
            error_reply("ERR wrong number of arguments for '", name, "' command"),
        ),
    )
}

/// The reply to a command whose name shows as `name`.
pub fn unknown_command(name: &str) -> (r: Reply)
    ensures
        outcome_view(Outcome::Reply(r)) == error(unknown(name@)),
{
    error_reply("ERR unknown command '", name, "'")
}

fn bulk_reply(bytes: &Vec<u8>) -> (r: Request)
    ensures
        request_view(r) == Meaning::Answer(Answer::Reply(resp::bulk_bytes(bytes@))),
{
    Request::Answer(Outcome::Reply(Reply::Bulk(writer::copy(bytes))))
}

fn simple_reply(t: &'static str) -> (r: Outcome)
    ensures
        outcome_view(r) == simple(t@),
{
    Outcome::Reply(Reply::Simple(t))
}

/// What to do about a command.
pub fn dispatch(args: &[Vec<u8>]) -> (r: Request)
    requires
        args@.len() <= i64::MAX,
    ensures
        request_view(r) == meaning(resp::args_view(args@)),
        r matches Request::Del(d) ==> d.well_formed(),
        match r {
            Request::Answer(_) => true,
            Request::Get(key) => args@.len() == 2 && key@ == args@[1]@,
            Request::Put { key, value } => args@.len() == 3 && key@ == args@[1]@ && value@
                == args@[2]@,
            Request::Del(d) => {
                &&& args@.len() >= 2
                &&& d.spec_keys().len() == args@.len() - 1
                &&& forall|i: int|
                    0 <= i < args@.len() - 1 ==> #[trigger] d.spec_keys()[i] == args@[i + 1]@
            },
        },
{
    let ghost view = resp::args_view(args@);
    let n: usize = args.len();
    if n == 0 {
        return Request::Answer(Outcome::Nothing);
    }
    let name = text::to_upper(args[0].as_slice());
    let name: &[u8] = name.as_slice();
    if order::same(name, "PING".as_bytes()) {
        if n == 1 {
            return Request::Answer(simple_reply("PONG"));
        } else if n == 2 {
            return bulk_reply(&args[1]);
        }
        return arity_reply("ping");
    }
    if order::same(name, "ECHO".as_bytes()) {
        if n == 2 {
            return bulk_reply(&args[1]);
        }
        return arity_reply("echo");
    }
    if order::same(name, "QUIT".as_bytes()) {
        return Request::Answer(Outcome::Quit);
    }
    if order::same(name, "COMMAND".as_bytes()) {
        let nothing: Vec<Reply> = Vec::new();
        let reply = Reply::Array(nothing);
        proof {
            assert(nothing@ =~= Seq::<Reply>::empty());
            let header = resp::marked(42, text::decimal(0));
            assert(resp::replies_bytes(nothing@) =~= Seq::<u8>::empty());
            assert(header + resp::replies_bytes(nothing@) =~= header);
        }
        return Request::Answer(Outcome::Reply(reply));
    }
    if order::same(name, "GET".as_bytes()) {
        if n == 2 {
            return Request::Get(writer::copy(&args[1]));
        }
        return arity_reply("get");
    }
    if order::same(name, "SET".as_bytes()) {
        if n == 3 {
            return Request::Put { key: writer::copy(&args[1]), value: writer::copy(&args[2]) };
        }
        return arity_reply("set");
    }
    if order::same(name, "DEL".as_bytes()) {
        if n >= 2 {
            let mut keys: Vec<Vec<u8>> = Vec::new();
            let mut i: usize = 1;
            while i < n
                invariant
                    1 <= i <= n == args@.len(),
                    view == resp::args_view(args@),
                    resp::args_view(keys@) =~= view.subrange(1, i as int),
                decreases n - i,
            {
                let ghost before = keys@;
                let key = writer::copy(&args[i]);
                let ghost bytes = key@;
                keys.push(key);
                assert(resp::args_view(keys@) =~= resp::args_view(before).push(bytes));
                i = i + 1;
            }
            assert(view.subrange(1, i as int) =~= view.skip(1));
            assert(forall|j: int| 0 <= j < n - 1 ==> #[trigger] view.skip(1)[j] == args@[j + 1]@);
            return Request::Del(Deletion { keys, next: 0, removed: 0 });
        }
        return arity_reply("del");
    }
    let shown = text::show(args[0].as_slice());
    Request::Answer(Outcome::Reply(unknown_command(shown.as_str())))
}

/// The reply to a failure of the store.
pub fn server_error(message: &str) -> (r: Reply)
    ensures
        outcome_view(Outcome::Reply(r)) == error("ERR "@ + message@),
{
    let t: String = "ERR ".to_string().concat(message);
    Reply::Error(t)
}

/// The reply to a read.
pub fn get_reply(found: Result<Option<Vec<u8>>, String>) -> (r: Outcome)
    ensures
        outcome_view(r) == (match found {
            Ok(Some(v)) => Answer::Reply(resp::bulk_bytes(v@)),
            Ok(None) => Answer::Reply(seq![36u8, 45u8, 49u8, 13u8, 10u8]),
            Err(e) => error("ERR "@ + e@),
        }),
{
    match found {
        Ok(Some(v)) => Outcome::Reply(Reply::Bulk(v)),
        Ok(None) => Outcome::Reply(Reply::Nil),
        Err(e) => Outcome::Reply(server_error(e.as_str())),
    }
}

/// The reply to a write.
pub fn set_reply(written: Result<(), String>) -> (r: Outcome)
    ensures
        outcome_view(r) == (match written {
            Ok(_) => simple("OK"@),
            Err(e) => error("ERR "@ + e@),
        }),
{
    match written {
        Ok(_) => simple_reply("OK"),
        Err(e) => Outcome::Reply(server_error(e.as_str())),
    }
}

/// A deletion of several keys. Only keys that are there are deleted and counted:
/// an absent key must neither leave a trace in the store nor raise the count.
pub struct Deletion {
    keys: Vec<Vec<u8>>,
    next: usize,
    removed: i64,
}

/// What a deletion has to do next.
pub enum DelStep {
    /// Read this key, and go on with [`Deletion::found`].
    Look(Vec<u8>),
    /// Delete this key, and go on with [`Deletion::deleted`].
    Delete(Vec<u8>),
    /// It is over.
    Done(Outcome),
}

/// How many deletions it takes to remove `keys` where the keys in `present` are
/// there.
pub open spec fn removals(present: Set<Seq<u8>>, keys: Seq<Seq<u8>>) -> nat
    decreases keys.len(),
{
    if keys.len() == 0 {
        0
    } else if present.contains(keys[0]) {
        1 + removals(present.remove(keys[0]), keys.skip(1))
    } else {
        removals(present, keys.skip(1))
    }
}

impl Deletion {
    pub closed spec fn spec_keys(&self) -> Seq<Seq<u8>> {
        resp::args_view(self.keys@)
    }

    /// How many keys have been dealt with.
    pub closed spec fn spec_next(&self) -> int {
        self.next as int
    }

    /// How many of them were there.
    pub closed spec fn spec_removed(&self) -> int {
        self.removed as int
    }

    pub open spec fn well_formed(&self) -> bool {
        0 <= self.spec_removed() <= self.spec_next() <= self.spec_keys().len() <= i64::MAX
    }

    /// The count that the deletion will end with, if the keys in `present` are
    /// there now.
    pub open spec fn expects(&self, present: Set<Seq<u8>>) -> int {
        self.spec_removed() + removals(present, self.spec_keys().skip(self.spec_next()))
    }

    /// `s` is right where `next` keys have been dealt with.
    pub open spec fn continues(&self, s: DelStep) -> bool {
        match s {
            DelStep::Look(key) => self.spec_next() < self.spec_keys().len() && key@
                == self.spec_keys()[self.spec_next()],
            DelStep::Delete(_) => false,
            DelStep::Done(o) => self.spec_next() == self.spec_keys().len() && outcome_view(o)
                == Answer::Reply(resp::marked(58, text::signed_decimal(self.spec_removed()))),
        }
    }

    /// What to do now.
    pub fn step(&self) -> (r: DelStep)
        requires
            self.well_formed(),
        ensures
            self.continues(r),
            forall|present: Set<Seq<u8>>| r is Done ==> #[trigger] self.expects(present)
                == self.spec_removed(),
    {
        proof {
            assert forall|present: Set<Seq<u8>>| self.next == self.keys@.len() implies
                #[trigger] self.expects(present) == self.spec_removed() by {
                assert(self.spec_keys().skip(self.spec_next()).len() == 0);
            }
        }
        if self.next < self.keys.len() {
            DelStep::Look(writer::copy(&self.keys[self.next]))
        } else {
            DelStep::Done(Outcome::Reply(Reply::Integer(self.removed)))
        }
    }

    /// The key has been read: is it there?
    pub fn found(&mut self, there: Result<bool, String>) -> (r: DelStep)
        requires
            old(self).well_formed(),
            old(self).spec_next() < old(self).spec_keys().len(),
        ensures
            final(self).well_formed(),
            final(self).spec_keys() == old(self).spec_keys(),
            final(self).spec_removed() == old(self).spec_removed(),
            match there {
                Ok(true) => {
                    &&& final(self).spec_next() == old(self).spec_next()
                    &&& r matches DelStep::Delete(key) && key@ == old(self).spec_keys()[old(
                        self,
                    ).spec_next()]
                },
                Ok(false) => {
                    &&& final(self).spec_next() == old(self).spec_next() + 1
                    &&& final(self).continues(r)
                    &&& forall|present: Set<Seq<u8>>|
                        !present.contains(old(self).spec_keys()[old(self).spec_next()])
                            ==> #[trigger] final(self).expects(present) == old(self).expects(
                            present,
                        )
                },
                Err(e) => r matches DelStep::Done(o) && outcome_view(o) == error("ERR "@ + e@),
            },
    {
        match there {
            Ok(true) => DelStep::Delete(writer::copy(&self.keys[self.next])),
            Ok(false) => {
                let ghost rest = self.spec_keys().skip(self.spec_next());
                assert(self.next < self.keys.len());
                self.next = self.next + 1;
                proof {
                    assert(rest.skip(1) =~= self.spec_keys().skip(self.spec_next()));
                    assert(rest[0] == old(self).spec_keys()[old(self).spec_next()]);
                }
                self.step()
            },
            Err(e) => DelStep::Done(Outcome::Reply(server_error(e.as_str()))),
        }
    }

    /// The key has been deleted.
    pub fn deleted(&mut self, done: Result<(), String>) -> (r: DelStep)
        requires
            old(self).well_formed(),
            old(self).spec_next() < old(self).spec_keys().len(),
        ensures
            final(self).well_formed(),
            final(self).spec_keys() == old(self).spec_keys(),
            match done {
                Ok(_) => {
                    &&& final(self).spec_next() == old(self).spec_next() + 1
                    &&& final(self).spec_removed() == old(self).spec_removed() + 1
                    &&& final(self).continues(r)
                    &&& forall|present: Set<Seq<u8>>|
                        present.contains(old(self).spec_keys()[old(self).spec_next()])
                            ==> final(self).expects(
                            present.remove(old(self).spec_keys()[old(self).spec_next()]),
                        ) == #[trigger] old(self).expects(present)
                },
                Err(e) => r matches DelStep::Done(o) && outcome_view(o) == error("ERR "@ + e@),
            },
    {
        match done {
            Ok(_) => {
                let ghost rest = self.spec_keys().skip(self.spec_next());
                assert(self.next < self.keys.len());
                self.next = self.next + 1;
                self.removed = self.removed + 1;
                proof {
                    assert(rest.skip(1) =~= self.spec_keys().skip(self.spec_next()));
                    assert(rest[0] == old(self).spec_keys()[old(self).spec_next()]);
                }
                self.step()
            },
            Err(e) => DelStep::Done(Outcome::Reply(server_error(e.as_str()))),
        }
    }
}

/// A deletion counts every key that was there once, however often it is named.
pub proof fn deletions_count_keys_that_existed(present: Set<Seq<u8>>, keys: Seq<Seq<u8>>)
    requires
        present.finite(),
    ensures
        removals(present, keys) == present.intersect(keys.to_set()).len(),
    decreases keys.len(),
{
    let all = present.intersect(keys.to_set());
    if keys.len() == 0 {
        assert(all =~= Set::<Seq<u8>>::empty());
    } else {
        let k = keys[0];
        let rest = keys.skip(1);
        assert forall|q: Seq<u8>| keys.to_set().contains(q) == (q == k || rest.to_set().contains(q)) by {
            if keys.contains(q) && q != k {
                let i = choose|i: int| 0 <= i < keys.len() && keys[i] == q;
                assert(rest[i - 1] == q);
            }
            if rest.contains(q) {
                let i = choose|i: int| 0 <= i < rest.len() && rest[i] == q;
                assert(keys[i + 1] == q);
            }
            assert(keys[0] == k);
        }
        if present.contains(k) {
            let others = present.remove(k);
            deletions_count_keys_that_existed(others, rest);
            assert(all =~= others.intersect(rest.to_set()).insert(k));
        } else {
            deletions_count_keys_that_existed(present, rest);
            assert(all =~= present.intersect(rest.to_set()));
        }
    }
}

/// What to do with a connection next.
pub enum Next {
    /// Wait for more bytes.
    Read,
    /// Run a command that took so many bytes.
    Run { args: Vec<Vec<u8>>, consumed: usize },
    /// Send a reply, and go on.
    Send(Reply),
    /// Send a reply, and hang up.
    SendAndClose(Reply),
    /// Hang up.
    Close,
    /// Hang up: the connection broke.
    Fail(RespError),
}

/// What follows from what was read. Bytes that break the protocol cannot be
/// recovered from, so the client is told, and the connection ends rather than
/// taking the next bytes for a command.
pub fn after_reading(read: Result<ReadStep, RespError>) -> (r: Next)
    ensures
        match read {
            Ok(ReadStep::More) => r is Read,
            Ok(ReadStep::Closed) => r is Close,
            Ok(ReadStep::Command { args, consumed }) => r == (Next::Run { args, consumed }),
            Err(e) => if e.spec_is_protocol_error() {
                r matches Next::SendAndClose(reply) && outcome_view(Outcome::Reply(reply)) == error(
                    "ERR Protocol error: "@ + e.spec_message(),
                )
            } else {
                r == Next::Fail(e)
            },
        },
{
    match read {
        Ok(ReadStep::More) => Next::Read,
        Ok(ReadStep::Closed) => Next::Close,
        Ok(ReadStep::Command { args, consumed }) => Next::Run { args, consumed },
        Err(e) => {
            if e.is_protocol_error() {
                let t: String = "ERR Protocol error: ".to_string().concat(e.message());
                Next::SendAndClose(Reply::Error(t))
            } else {
                Next::Fail(e)
            }
        },
    }
}

/// What follows from a command.
pub fn after_command(outcome: Outcome) -> (r: Next)
    ensures
        match outcome {
            Outcome::Nothing => r is Read,
            Outcome::Reply(reply) => r == Next::Send(reply),
            Outcome::Quit => r matches Next::SendAndClose(reply) && outcome_view(
                Outcome::Reply(reply),
            ) == simple("OK"@),
        },
{
    match outcome {
        Outcome::Nothing => Next::Read,
        Outcome::Reply(reply) => Next::Send(reply),
        Outcome::Quit => Next::SendAndClose(Reply::Simple("OK")),
    }
}

// --------------------------------------------------------------------- laws

/// `name` is spelled with these capitals, or with the small letters for them.
pub open spec fn spelled(name: Seq<u8>, capitals: Seq<u8>) -> bool {
    &&& name.len() == capitals.len()
    &&& forall|i: int|
        0 <= i < name.len() ==> #[trigger] name[i] == capitals[i] || name[i] == capitals[i] + 32
}

/// The names of the commands in capital letters.
proof fn lemma_names()
    ensures
        text::utf8("PING"@) == seq![80u8, 73u8, 78u8, 71u8],
        text::utf8("ECHO"@) == seq![69u8, 67u8, 72u8, 79u8],
        text::utf8("QUIT"@) == seq![81u8, 85u8, 73u8, 84u8],
        text::utf8("COMMAND"@) == seq![67u8, 79u8, 77u8, 77u8, 65u8, 78u8, 68u8],
        text::utf8("GET"@) == seq![71u8, 69u8, 84u8],
        text::utf8("SET"@) == seq![83u8, 69u8, 84u8],
        text::utf8("DEL"@) == seq![68u8, 69u8, 76u8],
        text::utf8("PONG"@) == seq![80u8, 79u8, 78u8, 71u8],
        text::utf8("OK"@) == seq![79u8, 75u8],
{
    reveal_strlit("PING");
    reveal_strlit("ECHO");
    reveal_strlit("QUIT");
    reveal_strlit("COMMAND");
    reveal_strlit("GET");
    reveal_strlit("SET");
    reveal_strlit("DEL");
    reveal_strlit("PONG");
    reveal_strlit("OK");
    text::ascii_is_a_byte_each("PING"@, seq![80u8, 73u8, 78u8, 71u8]);
    text::ascii_is_a_byte_each("ECHO"@, seq![69u8, 67u8, 72u8, 79u8]);
    text::ascii_is_a_byte_each("QUIT"@, seq![81u8, 85u8, 73u8, 84u8]);
    text::ascii_is_a_byte_each("COMMAND"@, seq![67u8, 79u8, 77u8, 77u8, 65u8, 78u8, 68u8]);
    text::ascii_is_a_byte_each("GET"@, seq![71u8, 69u8, 84u8]);
    text::ascii_is_a_byte_each("SET"@, seq![83u8, 69u8, 84u8]);
    text::ascii_is_a_byte_each("DEL"@, seq![68u8, 69u8, 76u8]);
    text::ascii_is_a_byte_each("PONG"@, seq![80u8, 79u8, 78u8, 71u8]);
    text::ascii_is_a_byte_each("OK"@, seq![79u8, 75u8]);
}

proof fn lemma_spelled(name: Seq<u8>, capitals: Seq<u8>)
    requires
        forall|i: int| 0 <= i < capitals.len() ==> 65 <= #[trigger] capitals[i] <= 90,
    ensures
        spelled(name, capitals) == (text::upper(name) == capitals),
{
    let u = text::upper(name);
    if spelled(name, capitals) {
        assert forall|i: int| 0 <= i < u.len() implies u[i] == capitals[i] by {
            assert(name[i] == capitals[i] || name[i] == capitals[i] + 32);
            assert(65 <= capitals[i] <= 90);
        }
        assert(u =~= capitals);
    }
    if u == capitals {
        assert forall|i: int| 0 <= i < name.len() implies #[trigger] name[i] == capitals[i]
            || name[i] == capitals[i] + 32 by {
            assert(u[i] == capitals[i]);
        }
    }
}

/// What a name is, tells what it is not.
proof fn lemma_name(name: Seq<u8>)
    ensures
        spelled(name, seq![80u8, 73u8, 78u8, 71u8]) == (text::upper(name) == text::utf8("PING"@)),
        spelled(name, seq![69u8, 67u8, 72u8, 79u8]) == (text::upper(name) == text::utf8("ECHO"@)),
        spelled(name, seq![81u8, 85u8, 73u8, 84u8]) == (text::upper(name) == text::utf8("QUIT"@)),
        spelled(name, seq![67u8, 79u8, 77u8, 77u8, 65u8, 78u8, 68u8]) == (text::upper(name)
            == text::utf8("COMMAND"@)),
        spelled(name, seq![71u8, 69u8, 84u8]) == (text::upper(name) == text::utf8("GET"@)),
        spelled(name, seq![83u8, 69u8, 84u8]) == (text::upper(name) == text::utf8("SET"@)),
        spelled(name, seq![68u8, 69u8, 76u8]) == (text::upper(name) == text::utf8("DEL"@)),
        text::utf8("PING"@)[0] != text::utf8("ECHO"@)[0],
        text::utf8("PING"@)[0] != text::utf8("QUIT"@)[0],
        text::utf8("ECHO"@)[0] != text::utf8("QUIT"@)[0],
        text::utf8("GET"@)[0] != text::utf8("SET"@)[0],
        text::utf8("GET"@)[0] != text::utf8("DEL"@)[0],
        text::utf8("SET"@)[0] != text::utf8("DEL"@)[0],
        text::utf8("PING"@).len() == 4,
        text::utf8("ECHO"@).len() == 4,
        text::utf8("QUIT"@).len() == 4,
        text::utf8("COMMAND"@).len() == 7,
        text::utf8("GET"@).len() == 3,
        text::utf8("SET"@).len() == 3,
        text::utf8("DEL"@).len() == 3,
{
    lemma_names();
    lemma_spelled(name, text::utf8("PING"@));
    lemma_spelled(name, text::utf8("ECHO"@));
    lemma_spelled(name, text::utf8("QUIT"@));
    lemma_spelled(name, text::utf8("COMMAND"@));
    lemma_spelled(name, text::utf8("GET"@));
    lemma_spelled(name, text::utf8("SET"@));
    lemma_spelled(name, text::utf8("DEL"@));
}

/// `SET key value` writes exactly this value under exactly this key.
pub proof fn set_writes_what_it_is_given(name: Seq<u8>, key: Seq<u8>, value: Seq<u8>)
    requires
        spelled(name, seq![83u8, 69u8, 84u8]),
    ensures
        meaning(seq![name, key, value]) == (Meaning::Put { key, value }),
{
    lemma_name(name);
}

/// `GET key` reads exactly this key: the one that `SET key value` writes.
pub proof fn get_reads_what_it_is_given(name: Seq<u8>, key: Seq<u8>)
    requires
        spelled(name, seq![71u8, 69u8, 84u8]),
    ensures
        meaning(seq![name, key]) == Meaning::Get(key),
{
    lemma_name(name);
}

/// `DEL key ...` deletes exactly the keys behind its name, all of them, in order.
pub proof fn del_deletes_what_it_is_given(name: Seq<u8>, keys: Seq<Seq<u8>>)
    requires
        spelled(name, seq![68u8, 69u8, 76u8]),
        keys.len() > 0,
    ensures
        meaning(seq![name] + keys) == (Meaning::Del { keys, next: 0, removed: 0 }),
{
    lemma_name(name);
    assert((seq![name] + keys).skip(1) =~= keys);
}

/// `PING` is answered `PONG`, and `PING text` and `ECHO text` with the text as a
/// bulk string, byte for byte.
pub proof fn ping_and_echo_answer(name: Seq<u8>, other: Seq<u8>, text: Seq<u8>)
    requires
        spelled(name, seq![80u8, 73u8, 78u8, 71u8]),
        spelled(other, seq![69u8, 67u8, 72u8, 79u8]),
    ensures
        meaning(seq![name]) == Meaning::Answer(
            Answer::Reply(seq![43u8, 80u8, 79u8, 78u8, 71u8, 13u8, 10u8]),
        ),
        ({
            let bulk = Meaning::Answer(
                Answer::Reply(
                    seq![36u8] + text::decimal(text.len()) + seq![13u8, 10u8] + text + seq![
                        13u8,
                        10u8,
                    ],
                ),
            );
            &&& meaning(seq![name, text]) == bulk
            &&& meaning(seq![other, text]) == bulk
        }),
{
    lemma_name(name);
    lemma_name(other);
    lemma_names();
    assert(resp::marked(43, text::utf8("PONG"@)) =~= seq![
        43u8,
        80u8,
        79u8,
        78u8,
        71u8,
        13u8,
        10u8,
    ]);
}

/// `QUIT` hangs up and `COMMAND` is answered with an empty array, whatever
/// follows their names; nothing at all is not answered.
pub proof fn quit_and_command_ignore_their_arguments(
    name: Seq<u8>,
    other: Seq<u8>,
    args: Seq<Seq<u8>>,
)
    requires
        spelled(name, seq![81u8, 85u8, 73u8, 84u8]),
        spelled(other, seq![67u8, 79u8, 77u8, 77u8, 65u8, 78u8, 68u8]),
    ensures
        meaning(seq![name] + args) == Meaning::Answer(Answer::Quit),
        meaning(seq![other] + args) == Meaning::Answer(
            Answer::Reply(seq![42u8, 48u8, 13u8, 10u8]),
        ),
        meaning(Seq::empty()) == Meaning::Answer(Answer::Nothing),
{
    lemma_name(name);
    lemma_name(other);
    assert(resp::marked(42, text::decimal(0)) =~= seq![42u8, 48u8, 13u8, 10u8]);
}

/// A command with too few or too many arguments is answered with an error that
/// names it, and nothing is asked of the store.
pub proof fn a_wrong_number_of_arguments_is_an_error(args: Seq<Seq<u8>>)
    requires
        args.len() > 0,
    ensures
        ({
            let n = args.len();
            let name = args[0];
            let error = |t: Seq<char>|
                Meaning::Answer(
                    Answer::Reply(
                        seq![45u8] + vstd::utf8::encode_utf8(
                            "ERR wrong number of arguments for '"@ + t + "' command"@,
                        ) + seq![13u8, 10u8],
                    ),
                );
            &&& spelled(name, seq![80u8, 73u8, 78u8, 71u8]) && n > 2 ==> meaning(args) == error(
                "ping"@,
            )
            &&& spelled(name, seq![69u8, 67u8, 72u8, 79u8]) && n != 2 ==> meaning(args) == error(
                "echo"@,
            )
            &&& spelled(name, seq![71u8, 69u8, 84u8]) && n != 2 ==> meaning(args) == error("get"@)
            &&& spelled(name, seq![83u8, 69u8, 84u8]) && n != 3 ==> meaning(args) == error("set"@)
            &&& spelled(name, seq![68u8, 69u8, 76u8]) && n < 2 ==> meaning(args) == error("del"@)
        }),
{
    lemma_name(args[0]);
}

/// Any other name is answered with an error that shows it as it was sent.
pub proof fn an_unknown_command_is_an_error(args: Seq<Seq<u8>>)
    requires
        args.len() > 0,
        !spelled(args[0], seq![80u8, 73u8, 78u8, 71u8]),
        !spelled(args[0], seq![69u8, 67u8, 72u8, 79u8]),
        !spelled(args[0], seq![81u8, 85u8, 73u8, 84u8]),
        !spelled(args[0], seq![67u8, 79u8, 77u8, 77u8, 65u8, 78u8, 68u8]),
        !spelled(args[0], seq![71u8, 69u8, 84u8]),
        !spelled(args[0], seq![83u8, 69u8, 84u8]),
        !spelled(args[0], seq![68u8, 69u8, 76u8]),
    ensures
        meaning(args) == Meaning::Answer(
            Answer::Reply(
                seq![45u8] + vstd::utf8::encode_utf8(
                    "ERR unknown command '"@ + text::shown(args[0]) + "'"@,
                ) + seq![13u8, 10u8],
            ),
        ),
{
    lemma_name(args[0]);
}

/// Only `SET` leads to a write, only `GET` to a read, and only `DEL` to a
/// deletion.
pub proof fn only_these_commands_reach_the_store(args: Seq<Seq<u8>>)
    ensures
        match meaning(args) {
            Meaning::Answer(_) => true,
            Meaning::Get(key) => args.len() == 2 && args[1] == key && spelled(
                args[0],
                seq![71u8, 69u8, 84u8],
            ),
            Meaning::Put { key, value } => args.len() == 3 && args[1] == key && args[2] == value
                && spelled(args[0], seq![83u8, 69u8, 84u8]),
            Meaning::Del { keys, next, removed } => args == seq![args[0]] + keys && keys.len() > 0
                && next == 0 && removed == 0 && spelled(args[0], seq![68u8, 69u8, 76u8]),
        },
{
    if args.len() > 0 {
        lemma_name(args[0]);
        assert(args =~= seq![args[0]] + args.skip(1));
    }
}

/// A short answer and an error on the wire.
pub proof fn answers_on_the_wire(t: Seq<char>)
    ensures
        simple(t) == Answer::Reply(seq![43u8] + vstd::utf8::encode_utf8(t) + seq![13u8, 10u8]),
        error(t) == Answer::Reply(seq![45u8] + vstd::utf8::encode_utf8(t) + seq![13u8, 10u8]),
{
}

/// What is shown of a command that was understood is what it holds.
pub proof fn requests_are_shown_whole(r: Request, o: Outcome)
    ensures
        match o {
            Outcome::Nothing => outcome_view(o) == Answer::Nothing,
            Outcome::Reply(reply) => outcome_view(o) == Answer::Reply(resp::reply_bytes(reply)),
            Outcome::Quit => outcome_view(o) == Answer::Quit,
        },
        match r {
            Request::Answer(a) => request_view(r) == Meaning::Answer(outcome_view(a)),
            Request::Get(key) => request_view(r) == Meaning::Get(key@),
            Request::Put { key, value } => request_view(r) == (Meaning::Put {
                key: key@,
                value: value@,
            }),
            Request::Del(d) => request_view(r) == (Meaning::Del {
                keys: d.spec_keys(),
                next: d.spec_next(),
                removed: d.spec_removed(),
            }),
        },
{
}

/// A deletion looks at its keys one after the other, and ends with the number of
/// those that were there as an integer reply.
pub proof fn a_deletion_goes_from_key_to_key(d: Deletion, s: DelStep)
    requires
        d.continues(s),
    ensures
        match s {
            DelStep::Look(key) => d.spec_next() < d.spec_keys().len() && key@
                == d.spec_keys()[d.spec_next()],
            DelStep::Delete(_) => false,
            DelStep::Done(o) => {
                &&& d.spec_next() == d.spec_keys().len()
                &&& o matches Outcome::Reply(reply)
                &&& resp::reply_bytes(reply) == seq![58u8] + text::signed_decimal(d.spec_removed())
                    + seq![13u8, 10u8]
            },
        },
{
}

/// A deletion that has done nothing yet ends with the number of its keys that are
/// there, each counted once.
pub proof fn a_deletion_counts_what_is_there(d: Deletion, present: Set<Seq<u8>>)
    requires
        d.spec_next() == 0,
        d.spec_removed() == 0,
        present.finite(),
    ensures
        d.expects(present) == present.intersect(d.spec_keys().to_set()).len(),
{
    deletions_count_keys_that_existed(present, d.spec_keys());
    assert(d.spec_keys().skip(0) =~= d.spec_keys());
}

/// A command means to hang up exactly where its name is `QUIT`.
pub proof fn lemma_quit(args: Seq<Seq<u8>>)
    requires
        args.len() > 0,
    ensures
        meaning(args) == Meaning::Answer(Answer::Quit) <==> spelled(
            args[0],
            seq![81u8, 85u8, 73u8, 84u8],
        ),
{
    lemma_name(args[0]);
}

} // verus!
