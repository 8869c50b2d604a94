//! The whole of a connection: the commands in what was received, in order, and
//! what is sent back for them.
use crate::codec;
use crate::resp;
use crate::resp::{Reading, RespError};
use crate::server;
use crate::server::{Answer, Meaning, Next, Outcome};
use crate::text;
use vstd::prelude::*;

verus! {

/// How a connection ends.
pub enum End {
    /// In good order, or after the client was told what was wrong.
    Closed,
    /// It broke off.
    Failed(RespError),
    /// Not yet: a command waits for its answer.
    Unanswered,
}

/// What happens on a connection.
pub struct Exchange {
    /// The commands that are run.
    pub ran: Seq<Seq<Seq<u8>>>,
    /// The bytes that are sent.
    pub sent: Seq<u8>,
    pub end: End,
}

/// What is sent for an answer.
pub open spec fn answer_bytes(a: Answer) -> Seq<u8> {
    match a {
        Answer::Nothing => Seq::empty(),
        Answer::Reply(bytes) => bytes,
        Answer::Quit => resp::marked(43, text::utf8("OK"@)),
    }
}

/// What is sent for bytes that break the protocol.
pub open spec fn complaint(e: RespError) -> Seq<u8> {
    resp::marked(45, text::utf8("ERR Protocol error: "@ + e.spec_message()))
}

/// `later`, after some commands were run and some bytes were sent.
pub open spec fn preceded(ran: Seq<Seq<Seq<u8>>>, sent: Seq<u8>, later: Exchange) -> Exchange {
    Exchange { ran: ran + later.ran, sent: sent + later.sent, end: later.end }
}

/// What happens on a connection on which `s` is received, where the commands are
/// answered with `answers`.
pub open spec fn exchange(s: Seq<u8>, answers: Seq<Answer>) -> Exchange
    decreases answers.len(),
{
    match resp::command_at(s, true) {
        Err(e) => if e.spec_is_protocol_error() {
            Exchange { ran: Seq::empty(), sent: complaint(e), end: End::Closed }
        } else {
            Exchange { ran: Seq::empty(), sent: Seq::empty(), end: End::Failed(e) }
        },
        Ok(Reading::Command { args, consumed }) => if answers.len() == 0 {
            Exchange { ran: seq![args], sent: Seq::empty(), end: End::Unanswered }
        } else if answers[0] is Quit {
            Exchange { ran: seq![args], sent: answer_bytes(answers[0]), end: End::Closed }
        } else {
            preceded(
                seq![args],
                answer_bytes(answers[0]),
                exchange(s.skip(consumed), answers.skip(1)),
            )
        },
        Ok(_) => Exchange { ran: Seq::empty(), sent: Seq::empty(), end: End::Closed },
    }
}

/// A connection. It takes in what is received, and says what to do next.
pub struct Session {
    /// What was received and belongs to no command that was answered.
    input: Vec<u8>,
    /// Nothing more will be received.
    ended: bool,
    /// How many bytes the command took that waits for its answer.
    running: Option<usize>,
    /// Everything has been said.
    over: bool,
    received: Ghost<Seq<u8>>,
    answers: Ghost<Seq<Answer>>,
    ran: Ghost<Seq<Seq<Seq<u8>>>>,
    sent: Ghost<Seq<u8>>,
    end: Ghost<End>,
}

impl Session {
    /// All that was received.
    pub closed spec fn spec_received(&self) -> Seq<u8> {
        self.received@
    }

    /// What was received and belongs to no command that was answered.
    pub closed spec fn spec_input(&self) -> Seq<u8> {
        self.input@
    }

    /// The answers to the commands, in order.
    pub closed spec fn spec_answers(&self) -> Seq<Answer> {
        self.answers@
    }

    /// The commands that were answered.
    pub closed spec fn spec_ran(&self) -> Seq<Seq<Seq<u8>>> {
        self.ran@
    }

    /// All that was sent.
    pub closed spec fn spec_sent(&self) -> Seq<u8> {
        self.sent@
    }

    pub closed spec fn spec_ended(&self) -> bool {
        self.ended
    }

    /// A command waits for its answer.
    pub closed spec fn spec_running(&self) -> bool {
        self.running is Some
    }

    /// Everything has been said.
    pub closed spec fn spec_over(&self) -> bool {
        self.over
    }

    pub closed spec fn spec_end(&self) -> End {
        self.end@
    }

    /// What is left to do where `more` will be received and `later` answered.
    spec fn rest(&self, more: Seq<u8>, later: Seq<Answer>) -> Exchange {
        if self.over {
            Exchange { ran: Seq::empty(), sent: Seq::empty(), end: self.end@ }
        } else {
            exchange(self.input@ + more, later)
        }
    }

    /// Whatever is still received and answered: what was run and sent so far, and
    /// what is left to do, are the exchange.
    pub closed spec fn well_formed(&self) -> bool {
        &&& forall|more: Seq<u8>, later: Seq<Answer>|
            (self.ended ==> more.len() == 0) ==> #[trigger] exchange(
                self.received@ + more,
                self.answers@ + later,
            ) == preceded(self.ran@, self.sent@, self.rest(more, later))
        &&& self.over ==> !(self.end@ is Unanswered)
        &&& self.running matches Some(n) ==> {
            &&& !self.over
            &&& n <= self.input@.len()
            &&& resp::command_at(self.input@, self.ended) matches Ok(
                Reading::Command { args, consumed },
            ) && consumed == n
        }
    }

    /// The command that waits for its answer.
    pub open spec fn current(&self) -> Seq<Seq<u8>> {
        resp::command_at(self.spec_input(), self.spec_ended())->Ok_0->args
    }

    /// What is left once that command is answered.
    pub open spec fn behind_current(&self) -> Seq<u8> {
        self.spec_input().skip(resp::command_at(self.spec_input(), self.spec_ended())->Ok_0->consumed)
    }

    /// A connection on which nothing has happened yet.
    pub fn new() -> (r: Self)
        ensures
            r.well_formed(),
            r.spec_received() == Seq::<u8>::empty(),
            r.spec_input() == Seq::<u8>::empty(),
            r.spec_answers() == Seq::<Answer>::empty(),
            r.spec_ran() == Seq::<Seq<Seq<u8>>>::empty(),
            r.spec_sent() == Seq::<u8>::empty(),
            !r.spec_ended(),
            !r.spec_running(),
            !r.spec_over(),
    {
        let r = Session {
            input: Vec::new(),
            ended: false,
            running: None,
            over: false,
            received: Ghost(Seq::empty()),
            answers: Ghost(Seq::empty()),
            ran: Ghost(Seq::empty()),
            sent: Ghost(Seq::empty()),
            end: Ghost(End::Unanswered),
        };
        proof {
            assert(r.input@ =~= Seq::<u8>::empty());
            assert forall|more: Seq<u8>, later: Seq<Answer>| #[trigger]
                exchange(r.received@ + more, r.answers@ + later) == preceded(
                    r.ran@,
                    r.sent@,
                    r.rest(more, later),
                ) by {
                assert(r.received@ + more =~= r.input@ + more);
                assert(r.answers@ + later =~= later);
                lemma_preceded_by_nothing(r.rest(more, later));
            }
        }
        r
    }

    /// Takes in bytes.
    pub fn receive(&mut self, bytes: &[u8])
        requires
            old(self).well_formed(),
            !old(self).spec_ended(),
            !old(self).spec_running(),
        ensures
            final(self).well_formed(),
            final(self).spec_received() == old(self).spec_received() + bytes@,
            final(self).spec_input() == old(self).spec_input() + bytes@,
            final(self).spec_answers() == old(self).spec_answers(),
            final(self).spec_ran() == old(self).spec_ran(),
            final(self).spec_sent() == old(self).spec_sent(),
            final(self).spec_end() == old(self).spec_end(),
            !final(self).spec_ended(),
            !final(self).spec_running(),
            final(self).spec_over() == old(self).spec_over(),
    {
        let ghost before = *self;
        codec::put_bytes(&mut self.input, bytes);
        self.received = Ghost(self.received@ + bytes@);
        proof {
            assert forall|more: Seq<u8>, later: Seq<Answer>| #[trigger]
                exchange(self.received@ + more, self.answers@ + later) == preceded(
                    self.ran@,
                    self.sent@,
                    self.rest(more, later),
                ) by {
                let all = bytes@ + more;
                assert(self.received@ + more =~= before.received@ + all);
                assert(self.input@ + more =~= before.input@ + all);
                assert(exchange(before.received@ + all, before.answers@ + later) == preceded(
                    before.ran@,
                    before.sent@,
                    before.rest(all, later),
                ));
            }
        }
    }

    /// Nothing more will be received.
    pub fn end(&mut self)
        requires
            old(self).well_formed(),
            !old(self).spec_running(),
        ensures
            final(self).well_formed(),
            final(self).spec_received() == old(self).spec_received(),
            final(self).spec_input() == old(self).spec_input(),
            final(self).spec_answers() == old(self).spec_answers(),
            final(self).spec_ran() == old(self).spec_ran(),
            final(self).spec_sent() == old(self).spec_sent(),
            final(self).spec_end() == old(self).spec_end(),
            final(self).spec_ended(),
            !final(self).spec_running(),
            final(self).spec_over() == old(self).spec_over(),
    {
        let ghost before = *self;
        self.ended = true;
        proof {
            assert forall|more: Seq<u8>, later: Seq<Answer>| more.len() == 0 implies
                #[trigger] exchange(self.received@ + more, self.answers@ + later) == preceded(
                self.ran@,
                self.sent@,
                self.rest(more, later),
            ) by {
                assert(before.rest(more, later) == self.rest(more, later));
            }
        }
    }

    /// What to do next: run a command, send something, wait for more, or hang up.
    pub fn next(&mut self) -> (r: Next)
        requires
            old(self).well_formed(),
            !old(self).spec_running(),
            !old(self).spec_over(),
        ensures
            final(self).well_formed(),
            final(self).spec_received() == old(self).spec_received(),
            final(self).spec_input() == old(self).spec_input(),
            final(self).spec_answers() == old(self).spec_answers(),
            final(self).spec_ran() == old(self).spec_ran(),
            final(self).spec_ended() == old(self).spec_ended(),
            final(self).spec_running() == (r is Run),
            final(self).spec_over() == (r is SendAndClose || r is Close || r is Fail),
            match resp::command_at(old(self).spec_input(), old(self).spec_ended()) {
                Ok(Reading::More) => {
                    &&& r is Read
                    &&& !old(self).spec_ended()
                    &&& final(self).spec_sent() == old(self).spec_sent()
                },
                Ok(Reading::Closed) => {
                    &&& r is Close
                    &&& final(self).spec_sent() == old(self).spec_sent()
                    &&& final(self).spec_end() == End::Closed
                },
                Ok(Reading::Command { args: a, consumed: n }) => {
                    &&& r matches Next::Run { args, consumed } && resp::args_view(args@) == a
                        && consumed == n
                    &&& final(self).spec_sent() == old(self).spec_sent()
                },
                Err(e) => if e.spec_is_protocol_error() {
                    &&& r matches Next::SendAndClose(reply) && resp::reply_bytes(reply)
                        == complaint(e)
                    &&& final(self).spec_sent() == old(self).spec_sent() + complaint(e)
                    &&& final(self).spec_end() == End::Closed
                } else {
                    &&& r == Next::Fail(e)
                    &&& final(self).spec_sent() == old(self).spec_sent()
                    &&& final(self).spec_end() == End::Failed(e)
                },
            },
    {
        let ghost before = *self;
        let read = resp::read_command(self.input.as_slice(), self.ended);
        let ghost found = resp::command_at(self.input@, self.ended);
        proof {
            if self.ended {
                resp::an_ended_connection_needs_no_more(self.input@);
            }
            assert forall|more: Seq<u8>| (self.ended ==> more.len() == 0) && found != Ok::<
                Reading,
                RespError,
            >(Reading::More) implies #[trigger] resp::command_at(self.input@ + more, true)
                == found by {
                if self.ended {
                    assert(self.input@ + more =~= self.input@);
                } else {
                    resp::later_bytes_change_nothing(self.input@, more, true);
                }
            }
        }
        let r = server::after_reading(read);
        match &r {
            Next::Run { args, consumed } => {
                self.running = Some(*consumed);
                assert forall|more: Seq<u8>, later: Seq<Answer>|
                    self.rest(more, later) == before.rest(more, later) by {}
            },
            Next::SendAndClose(reply) => {
                self.over = true;
                self.sent = Ghost(self.sent@ + resp::reply_bytes(*reply));
                self.end = Ghost(End::Closed);
                proof {
                    let bytes = resp::reply_bytes(*reply);
                    self.lemma_over(before, bytes);
                }
            },
            Next::Close => {
                self.over = true;
                self.end = Ghost(End::Closed);
                proof {
                    assert(self.sent@ =~= before.sent@ + Seq::<u8>::empty());
                    self.lemma_over(before, Seq::empty());
                }
            },
            Next::Fail(e) => {
                self.over = true;
                self.end = Ghost(End::Failed(*e));
                proof {
                    assert(self.sent@ =~= before.sent@ + Seq::<u8>::empty());
                    self.lemma_over(before, Seq::empty());
                }
            },
            _ => {},
        }
        r
    }

    /// The last step: `bytes` are sent, and the connection is over.
    proof fn lemma_over(&self, before: Session, bytes: Seq<u8>)
        requires
            before.well_formed(),
            !before.over,
            before.running is None,
            self.over,
            !(self.end@ is Unanswered),
            self.running is None,
            self.input == before.input,
            self.ended == before.ended,
            self.received == before.received,
            self.answers == before.answers,
            self.ran == before.ran,
            self.sent@ == before.sent@ + bytes,
            forall|more: Seq<u8>, later: Seq<Answer>|
                (before.ended ==> more.len() == 0) ==> #[trigger] exchange(
                    before.input@ + more,
                    later,
                ) == (Exchange { ran: Seq::empty(), sent: bytes, end: self.end@ }),
        ensures
            self.well_formed(),
    {
        assert forall|more: Seq<u8>, later: Seq<Answer>|
            (self.ended ==> more.len() == 0) implies #[trigger] exchange(
            self.received@ + more,
            self.answers@ + later,
        ) == preceded(self.ran@, self.sent@, self.rest(more, later)) by {
            assert(exchange(before.received@ + more, before.answers@ + later) == preceded(
                before.ran@,
                before.sent@,
                before.rest(more, later),
            ));
            assert(before.rest(more, later) == exchange(before.input@ + more, later));
            let nothing = Seq::<u8>::empty();
            assert(before.sent@ + bytes + nothing =~= before.sent@ + bytes);
        }
    }

    /// The command has been run, and this is its outcome.
    pub fn answer(&mut self, outcome: Outcome) -> (r: Next)
        requires
            old(self).well_formed(),
            old(self).spec_running(),
        ensures
            final(self).well_formed(),
            final(self).spec_received() == old(self).spec_received(),
            final(self).spec_input() == old(self).behind_current(),
            final(self).spec_answers() == old(self).spec_answers().push(
                server::outcome_view(outcome),
            ),
            final(self).spec_ran() == old(self).spec_ran().push(old(self).current()),
            final(self).spec_sent() == old(self).spec_sent() + answer_bytes(
                server::outcome_view(outcome),
            ),
            final(self).spec_ended() == old(self).spec_ended(),
            !final(self).spec_running(),
            final(self).spec_over() == (outcome is Quit),
            final(self).spec_over() ==> final(self).spec_end() == End::Closed,
            match outcome {
                Outcome::Nothing => r is Read,
                Outcome::Reply(reply) => r == Next::Send(reply),
                Outcome::Quit => r matches Next::SendAndClose(reply) && resp::reply_bytes(reply)
                    == answer_bytes(Answer::Quit),
            },
    {
        let ghost before = *self;
        let ghost a = server::outcome_view(outcome);
        let ghost command = self.current();
        let consumed: usize = match self.running {
            Some(n) => n,
            None => 0,
        };
        let quit: bool = match &outcome {
            Outcome::Quit => true,
            _ => false,
        };
        let left = codec::copy_range(self.input.as_slice(), consumed, self.input.len());
        self.input = left;
        self.running = None;
        self.over = quit;
        self.answers = Ghost(self.answers@.push(a));
        self.ran = Ghost(self.ran@.push(command));
        self.sent = Ghost(self.sent@ + answer_bytes(a));
        self.end = Ghost(End::Closed);
        proof {
            assert forall|more: Seq<u8>, later: Seq<Answer>|
                (self.ended ==> more.len() == 0) implies #[trigger] exchange(
                self.received@ + more,
                self.answers@ + later,
            ) == preceded(self.ran@, self.sent@, self.rest(more, later)) by {
                let all = seq![a] + later;
                let s = before.input@ + more;
                assert(self.answers@ + later =~= before.answers@ + all);
                assert(exchange(before.received@ + more, before.answers@ + all) == preceded(
                    before.ran@,
                    before.sent@,
                    before.rest(more, all),
                ));
                if before.ended {
                    assert(s =~= before.input@);
                } else {
                    resp::later_bytes_change_nothing(before.input@, more, true);
                }
                assert(s.skip(consumed as int) =~= self.input@ + more);
                assert(all.skip(1) =~= later);
                let last = self.rest(more, later);
                let none = Seq::<Seq<Seq<u8>>>::empty();
                if quit {
                    assert(before.ran@ + seq![command] =~= before.ran@.push(command) + none);
                    assert(before.sent@ + answer_bytes(a) =~= before.sent@ + answer_bytes(a)
                        + Seq::<u8>::empty());
                } else {
                    assert(before.ran@ + (seq![command] + last.ran) =~= before.ran@.push(command)
                        + last.ran);
                    assert(before.sent@ + (answer_bytes(a) + last.sent) =~= before.sent@
                        + answer_bytes(a) + last.sent);
                }
            }
        }
        server::after_command(outcome)
    }
}

proof fn lemma_preceded_by_nothing(e: Exchange)
    ensures
        preceded(Seq::empty(), Seq::empty(), e) == e,
{
    assert(Seq::<Seq<Seq<u8>>>::empty() + e.ran =~= e.ran);
    assert(Seq::<u8>::empty() + e.sent =~= e.sent);
}

/// A session that is over has run the commands, and sent the bytes, that what it
/// received and the answers call for.
pub proof fn a_finished_session_is_the_exchange(s: Session)
    requires
        s.well_formed(),
        s.spec_over(),
    ensures
        exchange(s.spec_received(), s.spec_answers()) == (Exchange {
            ran: s.spec_ran(),
            sent: s.spec_sent(),
            end: s.spec_end(),
        }),
{
    let no_bytes = Seq::<u8>::empty();
    let no_answers = Seq::<Answer>::empty();
    assert(exchange(s.received@ + no_bytes, s.answers@ + no_answers) == preceded(
        s.ran@,
        s.sent@,
        s.rest(no_bytes, no_answers),
    ));
    assert(s.received@ + no_bytes =~= s.received@);
    assert(s.answers@ + no_answers =~= s.answers@);
    assert(s.ran@ + Seq::<Seq<Seq<u8>>>::empty() =~= s.ran@);
    assert(s.sent@ + no_bytes =~= s.sent@);
}

/// `b` is one command, and all of it belongs to the command.
pub open spec fn spells(b: Seq<u8>, c: Seq<Seq<u8>>) -> bool {
    resp::command_at(b, false) == Ok::<Reading, RespError>(
        Reading::Command { args: c, consumed: b.len() as int },
    )
}

/// What a client writes for a command is that command.
pub proof fn a_sent_command_is_spelled(c: Seq<Seq<u8>>)
    requires
        c.len() <= resp::MAX_ARGS,
        forall|i: int| 0 <= i < c.len() ==> (#[trigger] c[i]).len() <= resp::MAX_BULK_LEN,
    ensures
        spells(resp::command_bytes(c), c),
{
    resp::commands_read_back(c, Seq::empty(), false);
    assert(resp::command_bytes(c) + Seq::<u8>::empty() =~= resp::command_bytes(c));
}

/// Pieces of bytes, one behind the other.
pub open spec fn joined(pieces: Seq<Seq<u8>>) -> Seq<u8>
    decreases pieces.len(),
{
    if pieces.len() == 0 {
        Seq::empty()
    } else {
        pieces[0] + joined(pieces.skip(1))
    }
}

/// A command to hang up.
pub open spec fn is_quit(c: Seq<Seq<u8>>) -> bool {
    server::meaning(c) == Meaning::Answer(Answer::Quit)
}

/// How many of the commands are run: those up to the first that hangs up.
pub open spec fn up_to_quit(cs: Seq<Seq<Seq<u8>>>) -> int
    decreases cs.len(),
{
    if cs.len() == 0 {
        0
    } else if is_quit(cs[0]) {
        1
    } else {
        1 + up_to_quit(cs.skip(1))
    }
}

/// The answers on the wire, in order.
pub open spec fn answers_bytes(answers: Seq<Answer>) -> Seq<u8>
    decreases answers.len(),
{
    if answers.len() == 0 {
        Seq::empty()
    } else {
        answer_bytes(answers[0]) + answers_bytes(answers.skip(1))
    }
}

/// The commands that hang up, and no others, are answered that way.
pub open spec fn quits(cs: Seq<Seq<Seq<u8>>>, answers: Seq<Answer>) -> bool {
    forall|i: int|
        0 <= i < cs.len() && i < answers.len() ==> (answers[i] is Quit <==> is_quit(
            #[trigger] cs[i],
        ))
}

/// What happens on a connection that begins with the command `c`.
spec fn first_exchange(c: Seq<Seq<u8>>, behind: Seq<u8>, answers: Seq<Answer>) -> Exchange {
    if answers.len() == 0 {
        Exchange { ran: seq![c], sent: Seq::empty(), end: End::Unanswered }
    } else if answers[0] is Quit {
        Exchange { ran: seq![c], sent: answer_bytes(answers[0]), end: End::Closed }
    } else {
        preceded(seq![c], answer_bytes(answers[0]), exchange(behind, answers.skip(1)))
    }
}

proof fn lemma_first_exchange(
    b: Seq<u8>,
    c: Seq<Seq<u8>>,
    behind: Seq<u8>,
    answers: Seq<Answer>,
)
    requires
        spells(b, c),
    ensures
        exchange(b + behind, answers) == first_exchange(c, behind, answers),
{
    resp::later_bytes_change_nothing(b, behind, true);
    assert((b + behind).skip(b.len() as int) =~= behind);
}

/// What is to be sent and run for `cs`.
spec fn in_order(cs: Seq<Seq<Seq<u8>>>, answers: Seq<Answer>) -> Exchange {
    let n = up_to_quit(cs);
    if n <= answers.len() {
        Exchange { ran: cs.take(n), sent: answers_bytes(answers.take(n)), end: End::Closed }
    } else {
        Exchange {
            ran: cs.take(answers.len() as int + 1),
            sent: answers_bytes(answers),
            end: End::Unanswered,
        }
    }
}

proof fn lemma_up_to_quit(cs: Seq<Seq<Seq<u8>>>)
    ensures
        0 <= up_to_quit(cs) <= cs.len(),
    decreases cs.len(),
{
    if cs.len() > 0 {
        lemma_up_to_quit(cs.skip(1));
    }
}

/// One step of [`in_order`].
proof fn lemma_in_order(cs: Seq<Seq<Seq<u8>>>, answers: Seq<Answer>)
    requires
        cs.len() > 0,
        quits(cs, answers),
    ensures
        in_order(cs, answers) == (if answers.len() == 0 {
            Exchange { ran: seq![cs[0]], sent: Seq::empty(), end: End::Unanswered }
        } else if answers[0] is Quit {
            Exchange { ran: seq![cs[0]], sent: answer_bytes(answers[0]), end: End::Closed }
        } else {
            preceded(
                seq![cs[0]],
                answer_bytes(answers[0]),
                in_order(cs.skip(1), answers.skip(1)),
            )
        }),
{
    let c = cs[0];
    let behind = cs.skip(1);
    let n = up_to_quit(behind);
    lemma_up_to_quit(behind);
    assert(cs.take(1) =~= seq![c]);
    if answers.len() > 0 {
        let later = answers.skip(1);
        assert(answers[0] is Quit <==> is_quit(cs[0]));
        if is_quit(c) {
            let one = answers.take(1);
            assert(one.skip(1) =~= Seq::<Answer>::empty());
            assert(answers_bytes(one.skip(1)) =~= Seq::<u8>::empty());
            assert(answers_bytes(one) =~= answer_bytes(answers[0]));
        } else if n <= later.len() {
            assert(cs.take(n + 1) =~= seq![c] + behind.take(n));
            assert(answers.take(n + 1).skip(1) =~= later.take(n));
            assert(answers.take(n + 1)[0] == answers[0]);
        } else {
            let m = answers.len() as int;
            assert(cs.take(m + 1) =~= seq![c] + behind.take(m));
        }
    }
}

proof fn lemma_commands(pieces: Seq<Seq<u8>>, cs: Seq<Seq<Seq<u8>>>, answers: Seq<Answer>)
    requires
        pieces.len() == cs.len(),
        forall|i: int| 0 <= i < cs.len() ==> spells(#[trigger] pieces[i], cs[i]),
        quits(cs, answers),
    ensures
        exchange(joined(pieces), answers) == in_order(cs, answers),
    decreases cs.len(),
{
    if cs.len() == 0 {
        assert(joined(pieces).skip(0).len() == 0);
        assert(cs.take(0) =~= Seq::<Seq<Seq<u8>>>::empty());
        assert(answers.take(0) =~= Seq::<Answer>::empty());
    } else {
        let behind = joined(pieces.skip(1));
        assert(spells(pieces[0], cs[0]));
        lemma_first_exchange(pieces[0], cs[0], behind, answers);
        lemma_in_order(cs, answers);
        if answers.len() > 0 {
            assert forall|i: int| 0 <= i < cs.len() - 1 implies spells(
                #[trigger] pieces.skip(1)[i],
                cs.skip(1)[i],
            ) by {
                assert(spells(pieces[i + 1], cs[i + 1]));
            }
            assert forall|i: int|
                0 <= i < cs.len() - 1 && i < answers.len() - 1 implies (answers.skip(
                1,
            )[i] is Quit <==> is_quit(#[trigger] cs.skip(1)[i])) by {
                assert(answers[i + 1] is Quit <==> is_quit(cs[i + 1]));
            }
            lemma_commands(pieces.skip(1), cs.skip(1), answers.skip(1));
        }
    }
}

/// A client that sends commands and ends the connection gets the answers to them
/// in order, and nothing else, and its connection is closed in good order. A
/// command to hang up is answered and is the last one: those behind it are not
/// run. A command that is wrong is answered like any other and ends nothing.
pub proof fn commands_are_answered_in_order(
    pieces: Seq<Seq<u8>>,
    cs: Seq<Seq<Seq<u8>>>,
    answers: Seq<Answer>,
)
    requires
        pieces.len() == cs.len(),
        forall|i: int| 0 <= i < cs.len() ==> spells(#[trigger] pieces[i], cs[i]),
        up_to_quit(cs) <= answers.len(),
        quits(cs, answers),
    ensures
        0 <= up_to_quit(cs) <= cs.len(),
        exchange(joined(pieces), answers) == (Exchange {
            ran: cs.take(up_to_quit(cs)),
            sent: answers_bytes(answers.take(up_to_quit(cs))),
            end: End::Closed,
        }),
{
    lemma_up_to_quit(cs);
    lemma_commands(pieces, cs, answers);
}

/// A session that is over, on which commands were received: it has run them, up to
/// the first that hangs up, has sent their answers in order, and has closed the
/// connection.
pub proof fn a_session_answers_in_order(
    s: Session,
    pieces: Seq<Seq<u8>>,
    cs: Seq<Seq<Seq<u8>>>,
)
    requires
        s.well_formed(),
        s.spec_over(),
        s.spec_received() == joined(pieces),
        pieces.len() == cs.len(),
        forall|i: int| 0 <= i < cs.len() ==> spells(#[trigger] pieces[i], cs[i]),
        quits(cs, s.spec_answers()),
    ensures
        up_to_quit(cs) <= s.spec_answers().len(),
        s.spec_ran() == cs.take(up_to_quit(cs)),
        s.spec_sent() == answers_bytes(s.spec_answers().take(up_to_quit(cs))),
        s.spec_end() == End::Closed,
{
    a_finished_session_is_the_exchange(s);
    lemma_commands(pieces, cs, s.spec_answers());
}

/// The commands that hang up are those named `QUIT`, in capitals or not.
pub proof fn only_quit_hangs_up(c: Seq<Seq<u8>>)
    ensures
        is_quit(c) <==> c.len() > 0 && server::spelled(c[0], seq![81u8, 85u8, 73u8, 84u8]),
{
    if c.len() > 0 {
        let args = c.skip(1);
        assert(c =~= seq![c[0]] + args);
        server::only_these_commands_reach_the_store(c);
        server::lemma_quit(c);
    }
}

/// What is sent for an answer is the reply as it is, and `OK` for the last one.
pub proof fn answers_are_sent_as_they_are(a: Answer)
    ensures
        answer_bytes(a) == (match a {
            Answer::Nothing => Seq::empty(),
            Answer::Reply(bytes) => bytes,
            Answer::Quit => seq![43u8] + vstd::utf8::encode_utf8("OK"@) + seq![13u8, 10u8],
        }),
{
}

/// Commands without one that hangs up, and then bytes that are no command: the
/// commands are answered, and nothing of what follows is run. A client that broke
/// the protocol is told so and the connection is closed; one that only went away
/// too early is told nothing.
pub proof fn a_broken_connection_ends_behind_its_commands(
    pieces: Seq<Seq<u8>>,
    cs: Seq<Seq<Seq<u8>>>,
    answers: Seq<Answer>,
    bad: Seq<u8>,
    e: RespError,
)
    requires
        pieces.len() == cs.len() == answers.len(),
        forall|i: int| 0 <= i < cs.len() ==> spells(#[trigger] pieces[i], cs[i]),
        forall|i: int| 0 <= i < answers.len() ==> !(#[trigger] answers[i] is Quit),
        resp::command_at(bad, true) == Err::<Reading, RespError>(e),
    ensures
        exchange(joined(pieces) + bad, answers) == (if e is ConnectionClosed || e is Truncated {
            Exchange { ran: cs, sent: answers_bytes(answers), end: End::Failed(e) }
        } else {
            Exchange {
                ran: cs,
                sent: answers_bytes(answers) + (seq![45u8] + vstd::utf8::encode_utf8(
                    "ERR Protocol error: "@ + e.spec_message(),
                ) + seq![13u8, 10u8]),
                end: End::Closed,
            }
        }),
    decreases cs.len(),
{
    let last = if e is ConnectionClosed || e is Truncated {
        Seq::<u8>::empty()
    } else {
        seq![45u8] + vstd::utf8::encode_utf8("ERR Protocol error: "@ + e.spec_message()) + seq![
            13u8,
            10u8,
        ]
    };
    if cs.len() == 0 {
        assert(joined(pieces) + bad =~= bad);
        assert(cs =~= Seq::<Seq<Seq<u8>>>::empty());
        assert(answers_bytes(answers) + last =~= last);
    } else {
        let c = cs[0];
        let behind = joined(pieces.skip(1)) + bad;
        assert(spells(pieces[0], cs[0]));
        assert(!(answers[0] is Quit));
        assert(joined(pieces) + bad =~= pieces[0] + behind);
        lemma_first_exchange(pieces[0], c, behind, answers);
        assert forall|i: int| 0 <= i < cs.len() - 1 implies spells(
            #[trigger] pieces.skip(1)[i],
            cs.skip(1)[i],
        ) by {
            assert(spells(pieces[i + 1], cs[i + 1]));
        }
        assert forall|i: int| 0 <= i < answers.len() - 1 implies !(
        #[trigger] answers.skip(1)[i] is Quit) by {
            assert(!(answers[i + 1] is Quit));
        }
        a_broken_connection_ends_behind_its_commands(
            pieces.skip(1),
            cs.skip(1),
            answers.skip(1),
            bad,
            e,
        );
        assert(seq![c] + cs.skip(1) =~= cs);
        let a = answer_bytes(answers[0]);
        let b = answers_bytes(answers.skip(1));
        assert(a + (b + last) =~= (a + b) + last);
    }
}

} // verus!
