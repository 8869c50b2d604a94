//! The command line: a line of text as a command, and what to print for it.
use crate::error::{DbError, ErrorView};
use crate::text;
use vstd::prelude::*;

verus! {

pub enum Command {
    Get(Vec<u8>),
    Put(Vec<u8>, Vec<u8>),
    Del(Vec<u8>),
    Scan,
    Exit,
}

/// The same, as contracts speak of it.
pub enum CommandView {
    Get(Seq<u8>),
    Put(Seq<u8>, Seq<u8>),
    Del(Seq<u8>),
    Scan,
    Exit,
}

impl View for Command {
    type V = CommandView;

    open spec fn view(&self) -> CommandView {
        match *self {
            Command::Get(k) => CommandView::Get(k@),
            Command::Put(k, v) => CommandView::Put(k@, v@),
            Command::Del(k) => CommandView::Del(k@),
            Command::Scan => CommandView::Scan,
            Command::Exit => CommandView::Exit,
        }
    }
}

/// Whether a character is white space, by Unicode's list.
pub open spec fn is_white(c: char) -> bool {
    let n = c as u32;
    ||| 9 <= n <= 13
    ||| n == 0x20
    ||| n == 0x85
    ||| n == 0xa0
    ||| n == 0x1680
    ||| 0x2000 <= n <= 0x200a
    ||| n == 0x2028
    ||| n == 0x2029
    ||| n == 0x202f
    ||| n == 0x205f
    ||| n == 0x3000
}

/// How many characters come before the first white space.
pub open spec fn word_len(s: Seq<char>) -> int
    decreases s.len(),
{
    if s.len() == 0 || is_white(s[0]) {
        0
    } else {
        1 + word_len(s.skip(1))
    }
}

/// The words of a line.
pub open spec fn words(s: Seq<char>) -> Seq<Seq<char>>
    decreases s.len(),
{
    if s.len() == 0 {
        Seq::empty()
    } else if is_white(s[0]) {
        words(s.skip(1))
    } else {
        let n = word_len(s);
        if 0 < n <= s.len() {
            seq![s.take(n)] + words(s.skip(n))
        } else {
            Seq::empty()
        }
    }
}

/// The command that a line gives. Words behind the last one that a command needs
/// are ignored.
pub open spec fn command_of(line: Seq<char>) -> Result<CommandView, ErrorView> {
    let ws = words(line);
    let n = ws.len();
    if n == 0 {
        Err(ErrorView::KeyNotFound)
    } else if ws[0] == "GET"@ {
        if n < 2 {
            Err(ErrorView::InvalidCommand("GET requires a key"@))
        } else {
            Ok(CommandView::Get(text::utf8(ws[1])))
        }
    } else if ws[0] == "PUT"@ {
        if n < 2 {
            Err(ErrorView::InvalidCommand("PUT requires a key"@))
        } else if n < 3 {
            Err(ErrorView::InvalidCommand("PUT requires a value"@))
        } else {
            Ok(CommandView::Put(text::utf8(ws[1]), text::utf8(ws[2])))
        }
    } else if ws[0] == "DEL"@ {
        if n < 2 {
            Err(ErrorView::InvalidCommand("PUT requires a key"@))
        } else {
            Ok(CommandView::Del(text::utf8(ws[1])))
        }
    } else if ws[0] == "SCAN"@ {
        Ok(CommandView::Scan)
    } else if ws[0] == "EXIT"@ {
        Ok(CommandView::Exit)
    } else {
        Err(ErrorView::InvalidCommand(ws[0]))
    }
}

fn white(c: char) -> (r: bool)
    ensures
        r == is_white(c),
{
    let n: u32 = c as u32;
    (9 <= n && n <= 13) || n == 0x20 || n == 0x85 || n == 0xa0 || n == 0x1680 || (0x2000 <= n && n
        <= 0x200a) || n == 0x2028 || n == 0x2029 || n == 0x202f || n == 0x205f || n == 0x3000
}

proof fn lemma_word_len(s: Seq<char>)
    ensures
        0 <= word_len(s) <= s.len(),
        word_len(s) < s.len() ==> is_white(s[word_len(s)]),
        forall|i: int| 0 <= i < word_len(s) ==> !is_white(#[trigger] s[i]),
    decreases s.len(),
{
    if s.len() > 0 && !is_white(s[0]) {
        let rest = s.skip(1);
        lemma_word_len(rest);
        assert forall|i: int| 0 <= i < word_len(s) implies !is_white(#[trigger] s[i]) by {
            if i > 0 {
                assert(rest[i - 1] == s[i]);
            }
        }
    }
}

/// The characters of a text.
fn chars_of(s: &str) -> (r: Vec<char>)
    ensures
        r@ == s@,
{
    let mut r: Vec<char> = Vec::new();
    for c in it: s.chars()
        invariant
            it.seq() == s@,
            r@ =~= s@.take(it.index() as int),
    {
        r.push(c);
    }
    assert(s@.take(s@.len() as int) =~= s@);
    r
}

/// Splits a line at its white space.
fn split_words(line: &str) -> (r: Vec<String>)
    ensures
        text::texts_view(r@) == words(line@),
{
    let chars = chars_of(line);
    let mut r: Vec<String> = Vec::new();
    let mut i: usize = 0;
    assert(line@.skip(0) =~= line@);
    while i < chars.len()
        invariant
            chars@ == line@,
            i <= chars@.len(),
            words(line@) =~= text::texts_view(r@) + words(line@.skip(i as int)),
        decreases chars@.len() - i,
    {
        let ghost rest = line@.skip(i as int);
        if white(chars[i]) {
            assert(rest.skip(1) =~= line@.skip(i + 1));
            i = i + 1;
        } else {
            let start: usize = i;
            while i < chars.len() && !white(chars[i])
                invariant
                    start <= i <= chars@.len(),
                    chars@ == line@,
                    forall|j: int| start <= j < i ==> !is_white(#[trigger] line@[j]),
                decreases chars@.len() - i,
            {
                i = i + 1;
            }
            let word = line.substring_char(start, i).to_string();
            let ghost before = r@;
            let ghost view = word@;
            r.push(word);
            proof {
                lemma_word_len(rest);
                let n = word_len(rest);
                if n < i - start {
                    assert(rest[n] == line@[start + n]);
                }
                if n > i - start {
                    assert(!is_white(rest[i - start]));
                }
                assert(view =~= rest.take(n));
                assert(rest.skip(n) =~= line@.skip(i as int));
                assert(text::texts_view(r@) =~= text::texts_view(before).push(view));
            }
        }
    }
    r
}

fn bytes_of(word: &String) -> (r: Vec<u8>)
    ensures
        r@ == text::utf8(word@),
{
    vstd::slice::slice_to_vec(word.as_str().as_bytes())
}

fn invalid(message: &str) -> (r: DbError)
    ensures
        r@ == ErrorView::InvalidCommand(message@),
{
    DbError::InvalidCommand(message.to_string())
}

/// Reads a line as a command.
pub fn parse(line: &str) -> (r: Result<Command, DbError>)
    ensures
        match r {
            Ok(command) => command_of(line@) == Ok::<CommandView, ErrorView>(command@),
            Err(e) => command_of(line@) == Err::<CommandView, ErrorView>(e@),
        },
{
    let parts = split_words(line);
    let ghost ws = words(line@);
    if parts.len() == 0 {
        return Err(DbError::KeyNotFound);
    }
    assert(ws[0] == parts@[0]@);
    let name: &str = parts[0].as_str();
    if text::same_text(name, "GET") {
        if parts.len() < 2 {
            return Err(invalid("GET requires a key"));
        }
        assert(ws[1] == parts@[1]@);
        return Ok(Command::Get(bytes_of(&parts[1])));
    }
    if text::same_text(name, "PUT") {
        if parts.len() < 2 {
            return Err(invalid("PUT requires a key"));
        }
        if parts.len() < 3 {
            return Err(invalid("PUT requires a value"));
        }
        assert(ws[1] == parts@[1]@ && ws[2] == parts@[2]@);
        return Ok(Command::Put(bytes_of(&parts[1]), bytes_of(&parts[2])));
    }
    if text::same_text(name, "DEL") {
        if parts.len() < 2 {
            return Err(invalid("PUT requires a key"));
        }
        assert(ws[1] == parts@[1]@);
        return Ok(Command::Del(bytes_of(&parts[1])));
    }
    if text::same_text(name, "SCAN") {
        return Ok(Command::Scan);
    }
    if text::same_text(name, "EXIT") {
        return Ok(Command::Exit);
    }
    Err(invalid(name))
}

/// What the store answered to a command, a failure with its words.
pub enum Executed {
    Get(Result<Option<Vec<u8>>, String>),
    Put(Result<(), String>),
    Del(Result<(), String>),
    /// The keys and values of a scan.
    Scan(Result<Vec<(Vec<u8>, Vec<u8>)>, String>),
    Exit,
}

/// A key and its value in one line.
pub open spec fn scan_line(key: Seq<char>, value: Seq<char>) -> Seq<char> {
    key + " "@ + value
}

/// The lines of a scan, one below the other.
pub open spec fn scan_lines(pairs: Seq<(Seq<char>, Seq<char>)>) -> Seq<char>
    decreases pairs.len(),
{
    if pairs.len() == 0 {
        Seq::empty()
    } else if pairs.len() == 1 {
        scan_line(pairs[0].0, pairs[0].1)
    } else {
        scan_lines(pairs.drop_last()) + "\n"@ + scan_line(pairs.last().0, pairs.last().1)
    }
}

/// What a scan prints.
pub open spec fn scan_text(pairs: Seq<(Seq<char>, Seq<char>)>) -> Seq<char> {
    if pairs.len() == 0 {
        "(empty)"@
    } else {
        scan_lines(pairs)
    }
}

pub open spec fn shown_pairs(pairs: Seq<(Vec<u8>, Vec<u8>)>) -> Seq<(Seq<char>, Seq<char>)> {
    Seq::new(pairs.len(), |i: int| (text::shown(pairs[i].0@), text::shown(pairs[i].1@)))
}

pub open spec fn text_pairs(pairs: Seq<(String, String)>) -> Seq<(Seq<char>, Seq<char>)> {
    Seq::new(pairs.len(), |i: int| (pairs[i].0@, pairs[i].1@))
}

/// What to print for a command; nothing for the last one. A failure of the store
/// is an error, whatever the command.
pub open spec fn output(e: Executed) -> Result<Option<Seq<char>>, ErrorView> {
    match e {
        Executed::Get(Ok(Some(v))) => Ok(Some(text::shown(v@))),
        Executed::Get(Ok(None)) => Ok(Some("(not found)"@)),
        Executed::Get(Err(m)) => Err(ErrorView::Io(m@)),
        Executed::Put(Ok(_)) => Ok(Some("OK"@)),
        Executed::Put(Err(m)) => Err(ErrorView::Io(m@)),
        Executed::Del(Ok(_)) => Ok(Some("OK"@)),
        Executed::Del(Err(m)) => Err(ErrorView::Io(m@)),
        Executed::Scan(Ok(pairs)) => Ok(Some(scan_text(shown_pairs(pairs@)))),
        Executed::Scan(Err(m)) => Err(ErrorView::Io(m@)),
        Executed::Exit => Ok(None),
    }
}

/// What a scan of these texts prints.
pub fn scan_output(pairs: &Vec<(String, String)>) -> (r: String)
    ensures
        r@ == scan_text(text_pairs(pairs@)),
{
    if pairs.len() == 0 {
        return "(empty)".to_string();
    }
    let ghost all = text_pairs(pairs@);
    let mut out: String = "".to_string();
    let mut i: usize = 0;
    proof {
        reveal_strlit("");
        assert(out@ =~= scan_lines(all.take(0)));
    }
    while i < pairs.len()
        invariant
            i <= pairs@.len(),
            all == text_pairs(pairs@),
            out@ == scan_lines(all.take(i as int)),
        decreases pairs@.len() - i,
    {
        let ghost before = out@;
        if i > 0 {
            out.append("\n");
        }
        out.append(pairs[i].0.as_str());
        out.append(" ");
        out.append(pairs[i].1.as_str());
        proof {
            let some = all.take(i + 1);
            assert(some.drop_last() =~= all.take(i as int));
            assert(some.last() == all[i as int]);
            let line = scan_line(all[i as int].0, all[i as int].1);
            if i == 0 {
                assert(before =~= Seq::<char>::empty());
                assert(out@ =~= line);
            } else {
                assert(out@ =~= before + "\n"@ + line);
            }
        }
        i = i + 1;
    }
    assert(all.take(i as int) =~= all);
    out
}

/// What to print once a command has been run.
pub fn execute(result: Executed) -> (r: Result<Option<String>, DbError>)
    ensures
        match r {
            Ok(Some(t)) => output(result) == Ok::<Option<Seq<char>>, ErrorView>(Some(t@)),
            Ok(None) => output(result) == Ok::<Option<Seq<char>>, ErrorView>(None),
            Err(e) => output(result) == Err::<Option<Seq<char>>, ErrorView>(e@),
        },
{
    match result {
        Executed::Get(Ok(Some(v))) => Ok(Some(text::show(v.as_slice()))),
        Executed::Get(Ok(None)) => Ok(Some("(not found)".to_string())),
        Executed::Get(Err(m)) => Err(DbError::Io(m)),
        Executed::Put(Ok(_)) => Ok(Some("OK".to_string())),
        Executed::Put(Err(m)) => Err(DbError::Io(m)),
        Executed::Del(Ok(_)) => Ok(Some("OK".to_string())),
        Executed::Del(Err(m)) => Err(DbError::Io(m)),
        Executed::Scan(Err(m)) => Err(DbError::Io(m)),
        Executed::Scan(Ok(pairs)) => {
            let mut texts: Vec<(String, String)> = Vec::new();
            let mut i: usize = 0;
            while i < pairs.len()
                invariant
                    i <= pairs@.len(),
                    text_pairs(texts@) =~= shown_pairs(pairs@).take(i as int),
                decreases pairs@.len() - i,
            {
                let ghost before = texts@;
                let pair = (text::show(pairs[i].0.as_slice()), text::show(pairs[i].1.as_slice()));
                let ghost view = (pair.0@, pair.1@);
                texts.push(pair);
                assert(text_pairs(texts@) =~= text_pairs(before).push(view));
                i = i + 1;
            }
            assert(shown_pairs(pairs@).take(i as int) =~= shown_pairs(pairs@));
            Ok(Some(scan_output(&texts)))
        },
        Executed::Exit => Ok(None),
    }
}

// --------------------------------------------------------------------- laws

/// Nothing but white space.
pub open spec fn separates(gap: Seq<char>) -> bool {
    forall|i: int| 0 <= i < gap.len() ==> is_white(#[trigger] gap[i])
}

/// One word: something, and no white space in it.
pub open spec fn one_word(w: Seq<char>) -> bool {
    w.len() > 0 && forall|i: int| 0 <= i < w.len() ==> !is_white(#[trigger] w[i])
}

/// A line of words: a gap, a word, a gap, and so on to the last gap.
pub open spec fn spaced(ws: Seq<Seq<char>>, gaps: Seq<Seq<char>>) -> Seq<char>
    decreases ws.len(),
{
    if ws.len() == 0 {
        gaps[0]
    } else {
        gaps[0] + ws[0] + spaced(ws.skip(1), gaps.skip(1))
    }
}

/// `line` is these words with white space between them, and perhaps around them.
pub open spec fn is_line_of(line: Seq<char>, ws: Seq<Seq<char>>, gaps: Seq<Seq<char>>) -> bool {
    &&& line == spaced(ws, gaps)
    &&& gaps.len() == ws.len() + 1
    &&& forall|i: int| 0 <= i < ws.len() ==> one_word(#[trigger] ws[i])
    &&& forall|i: int| 0 <= i < gaps.len() ==> separates(#[trigger] gaps[i])
    &&& forall|i: int| 0 < i < ws.len() ==> (#[trigger] gaps[i]).len() > 0
}

proof fn lemma_gap(gap: Seq<char>, rest: Seq<char>)
    requires
        separates(gap),
    ensures
        words(gap + rest) == words(rest),
    decreases gap.len(),
{
    if gap.len() == 0 {
        assert(gap + rest =~= rest);
    } else {
        let less = gap.skip(1);
        assert forall|i: int| 0 <= i < less.len() implies is_white(#[trigger] less[i]) by {
            assert(less[i] == gap[i + 1]);
        }
        assert((gap + rest)[0] == gap[0]);
        assert((gap + rest).skip(1) =~= less + rest);
        lemma_gap(less, rest);
    }
}

proof fn lemma_word(w: Seq<char>, rest: Seq<char>)
    requires
        one_word(w),
        rest.len() > 0 ==> is_white(rest[0]),
    ensures
        words(w + rest) == seq![w] + words(rest),
{
    let s = w + rest;
    lemma_word_len(s);
    let n = word_len(s);
    assert(s[0] == w[0]);
    if n < w.len() {
        assert(s[n] == w[n]);
    }
    if n > w.len() {
        assert(s[w.len() as int] == rest[0]);
    }
    assert(s.take(n) =~= w);
    assert(s.skip(n) =~= rest);
}

/// The words of a line are those that it was made of: all of them, unchanged and
/// in order, whatever white space stands between them.
pub proof fn a_line_is_split_into_its_words(
    line: Seq<char>,
    ws: Seq<Seq<char>>,
    gaps: Seq<Seq<char>>,
)
    requires
        is_line_of(line, ws, gaps),
    ensures
        words(line) == ws,
    decreases ws.len(),
{
    assert(separates(gaps[0]));
    if ws.len() == 0 {
        lemma_gap(gaps[0], Seq::empty());
        assert(gaps[0] + Seq::<char>::empty() =~= gaps[0]);
        assert(ws =~= Seq::<Seq<char>>::empty());
    } else {
        let w = ws[0];
        let less = ws.skip(1);
        let behind = gaps.skip(1);
        assert(one_word(ws[0]));
        assert forall|i: int| 0 <= i < less.len() implies one_word(#[trigger] less[i]) by {
            assert(one_word(ws[i + 1]));
        }
        assert forall|i: int| 0 <= i < behind.len() implies separates(#[trigger] behind[i]) by {
            assert(separates(gaps[i + 1]));
        }
        assert forall|i: int| 0 < i < less.len() implies (#[trigger] behind[i]).len() > 0 by {
            assert(gaps[i + 1].len() > 0);
        }
        let rest = spaced(less, behind);
        a_line_is_split_into_its_words(rest, less, behind);
        assert(behind[0] == gaps[1]);
        assert(separates(gaps[1]));
        if less.len() > 0 {
            assert(gaps[1].len() > 0);
            assert(rest[0] == gaps[1][0]);
        }
        lemma_word(w, rest);
        lemma_gap(gaps[0], w + rest);
        assert(line =~= gaps[0] + (w + rest));
        assert(seq![w] + less =~= ws);
    }
}

proof fn lemma_commands_differ()
    ensures
        "GET"@ != "PUT"@,
        "GET"@ != "DEL"@,
        "GET"@ != "SCAN"@,
        "GET"@ != "EXIT"@,
        "PUT"@ != "DEL"@,
        "PUT"@ != "SCAN"@,
        "PUT"@ != "EXIT"@,
        "DEL"@ != "SCAN"@,
        "DEL"@ != "EXIT"@,
        "SCAN"@ != "EXIT"@,
{
    reveal_strlit("GET");
    reveal_strlit("PUT");
    reveal_strlit("DEL");
    reveal_strlit("SCAN");
    reveal_strlit("EXIT");
    assert("GET"@[0] == 'G' && "PUT"@[0] == 'P' && "DEL"@[0] == 'D');
    assert("SCAN"@[0] == 'S' && "EXIT"@[0] == 'E');
}

/// `GET`, `PUT` and `DEL` speak of one key, and it is the whole second word: what
/// `PUT` writes under it `GET` reads and `DEL` deletes. The value of a `PUT` is
/// the whole third word. Words behind those change nothing.
pub proof fn a_key_is_the_word_behind_the_command(
    line: Seq<char>,
    ws: Seq<Seq<char>>,
    gaps: Seq<Seq<char>>,
)
    requires
        is_line_of(line, ws, gaps),
        ws.len() >= 2,
    ensures
        ws[0] == "GET"@ ==> command_of(line) == Ok::<CommandView, ErrorView>(
            CommandView::Get(vstd::utf8::encode_utf8(ws[1])),
        ),
        ws[0] == "DEL"@ ==> command_of(line) == Ok::<CommandView, ErrorView>(
            CommandView::Del(vstd::utf8::encode_utf8(ws[1])),
        ),
        ws[0] == "PUT"@ && ws.len() >= 3 ==> command_of(line) == Ok::<CommandView, ErrorView>(
            CommandView::Put(vstd::utf8::encode_utf8(ws[1]), vstd::utf8::encode_utf8(ws[2])),
        ),
        ws[0] == "PUT"@ && ws.len() == 2 ==> command_of(line) == Err::<CommandView, ErrorView>(
            ErrorView::InvalidCommand("PUT requires a value"@),
        ),
{
    a_line_is_split_into_its_words(line, ws, gaps);
    lemma_commands_differ();
}

/// Commands without a key, and lines that are none.
pub proof fn other_lines_need_no_key(line: Seq<char>, ws: Seq<Seq<char>>, gaps: Seq<Seq<char>>)
    requires
        is_line_of(line, ws, gaps),
    ensures
        ws.len() == 0 ==> command_of(line) == Err::<CommandView, ErrorView>(ErrorView::KeyNotFound),
        ws.len() == 1 && ws[0] == "GET"@ ==> command_of(line) == Err::<CommandView, ErrorView>(
            ErrorView::InvalidCommand("GET requires a key"@),
        ),
        ws.len() == 1 && (ws[0] == "PUT"@ || ws[0] == "DEL"@) ==> command_of(line) == Err::<
            CommandView,
            ErrorView,
        >(ErrorView::InvalidCommand("PUT requires a key"@)),
        ws.len() > 0 && ws[0] == "SCAN"@ ==> command_of(line) == Ok::<CommandView, ErrorView>(
            CommandView::Scan,
        ),
        ws.len() > 0 && ws[0] == "EXIT"@ ==> command_of(line) == Ok::<CommandView, ErrorView>(
            CommandView::Exit,
        ),
        ws.len() > 0 && ws[0] != "GET"@ && ws[0] != "PUT"@ && ws[0] != "DEL"@ && ws[0] != "SCAN"@
            && ws[0] != "EXIT"@ ==> command_of(line) == Err::<CommandView, ErrorView>(
            ErrorView::InvalidCommand(ws[0]),
        ),
{
    a_line_is_split_into_its_words(line, ws, gaps);
    lemma_commands_differ();
}

/// What is shown of a command is its key and its value as they are.
pub proof fn commands_are_shown_whole(c: Command)
    ensures
        c@ == (match c {
            Command::Get(k) => CommandView::Get(k@),
            Command::Put(k, v) => CommandView::Put(k@, v@),
            Command::Del(k) => CommandView::Del(k@),
            Command::Scan => CommandView::Scan,
            Command::Exit => CommandView::Exit,
        }),
{
}

/// A scan prints one line for each pair, in their order, the key and the value
/// with a space between them; and a note where there is none.
pub proof fn a_scan_prints_a_line_for_each_pair(
    pairs: Seq<(Seq<char>, Seq<char>)>,
    key: Seq<char>,
    value: Seq<char>,
)
    ensures
        scan_text(Seq::empty()) == "(empty)"@,
        scan_text(seq![(key, value)]) == key + seq![' '] + value,
        pairs.len() > 0 ==> scan_text(pairs.push((key, value))) == scan_text(pairs) + seq!['\n']
            + key + seq![' '] + value,
{
    reveal_strlit(" ");
    reveal_strlit("\n");
    assert(" "@ =~= seq![' ']);
    assert("\n"@ =~= seq!['\n']);
    assert(pairs.push((key, value)).drop_last() =~= pairs);
    assert(scan_lines(pairs) + "\n"@ + (key + " "@ + value) =~= scan_lines(pairs) + seq!['\n'] + key
        + seq![' '] + value);
}

/// What is printed for a result: the value as text, a note where there is none,
/// `OK` for a change, the lines of a scan; and a failure is never passed over.
pub proof fn results_are_printed(e: Executed)
    ensures
        match e {
            Executed::Get(Ok(Some(v))) => output(e) == Ok::<Option<Seq<char>>, ErrorView>(
                Some(text::shown(v@)),
            ),
            Executed::Get(Ok(None)) => output(e) == Ok::<Option<Seq<char>>, ErrorView>(
                Some("(not found)"@),
            ),
            Executed::Put(Ok(_)) | Executed::Del(Ok(_)) => output(e) == Ok::<
                Option<Seq<char>>,
                ErrorView,
            >(Some("OK"@)),
            Executed::Scan(Ok(pairs)) => {
                &&& shown_pairs(pairs@).len() == pairs@.len()
                &&& forall|i: int|
                    0 <= i < pairs@.len() ==> #[trigger] shown_pairs(pairs@)[i] == (
                        text::shown(pairs@[i].0@),
                        text::shown(pairs@[i].1@),
                    )
                &&& output(e) == Ok::<Option<Seq<char>>, ErrorView>(
                    Some(scan_text(shown_pairs(pairs@))),
                )
            },
            Executed::Exit => output(e) == Ok::<Option<Seq<char>>, ErrorView>(None),
            Executed::Get(Err(m)) | Executed::Put(Err(m)) | Executed::Del(Err(m)) | Executed::Scan(
                Err(m),
            ) => output(e) == Err::<Option<Seq<char>>, ErrorView>(ErrorView::Io(m@)),
        },
{
}

/// White space is what Unicode lists as such.
pub proof fn white_space_is_what_unicode_lists(c: char)
    ensures
        is_white(c) <==> c == '\t' || c == '\n' || c == '\u{b}' || c == '\u{c}' || c == '\r' || c
            == ' ' || c == '\u{85}' || c == '\u{a0}' || c == '\u{1680}' || ('\u{2000}' <= c && c
            <= '\u{200a}') || c == '\u{2028}' || c == '\u{2029}' || c == '\u{202f}' || c
            == '\u{205f}' || c == '\u{3000}',
{
}

} // verus!
