//! What the names of the files in a data directory say: which flushes a table
//! covers, and which files were never finished.
use crate::codec;
use crate::order;
use crate::text;
use crate::text::MINUS;
use vstd::prelude::*;

verus! {

pub const DOT: u8 = 46;

/// How many digits a flush number in a file name has at least.
pub const NUMBER_WIDTH: usize = 6;

/// `sstable-`
pub open spec fn prefix() -> Seq<u8> {
    seq![115u8, 115u8, 116u8, 97u8, 98u8, 108u8, 101u8, 45u8]
}

/// `sst`
pub open spec fn table_extension() -> Seq<u8> {
    seq![115u8, 115u8, 116u8]
}

/// `tmp`
pub open spec fn tmp_extension() -> Seq<u8> {
    seq![116u8, 109u8, 112u8]
}

/// A file name without its extension. A leading dot starts no extension.
pub open spec fn stem(name: Seq<u8>) -> Seq<u8> {
    let dot = text::last_of(name, DOT);
    if dot <= 0 {
        name
    } else {
        name.take(dot)
    }
}

/// What follows the last dot of a file name, unless that dot comes first.
pub open spec fn extension(name: Seq<u8>) -> Option<Seq<u8>> {
    let dot = text::last_of(name, DOT);
    if dot <= 0 {
        None
    } else {
        Some(name.skip(dot + 1))
    }
}

/// The first and the last flush that the table of this name covers, where the
/// name follows the scheme.
pub open spec fn span_of(name: Seq<u8>) -> Option<(u64, u64)> {
    let s = stem(name);
    if s.len() < prefix().len() || s.take(prefix().len() as int) != prefix() {
        None
    } else {
        let numbers = s.skip(prefix().len() as int);
        let dash = text::first_of(numbers, MINUS);
        if dash == numbers.len() {
            None
        } else {
            match (text::spec_parse_u64(numbers.take(dash)), text::spec_parse_u64(numbers.skip(dash + 1))) {
                (Some(first), Some(last)) => Some((first, last)),
                _ => None,
            }
        }
    }
}

/// `sstable-000003-000017.sst`, for the flushes 3 to 17.
pub open spec fn name_of(first: u64, last: u64) -> Seq<u8> {
    prefix() + text::padded(first as nat, NUMBER_WIDTH as nat) + seq![MINUS] + text::padded(
        last as nat,
        NUMBER_WIDTH as nat,
    ) + seq![DOT] + table_extension()
}

/// The name under which the same table is written before it is published.
pub open spec fn tmp_name_of(first: u64, last: u64) -> Seq<u8> {
    name_of(first, last) + seq![DOT] + tmp_extension()
}

/// What a file in the data directory is.
#[derive(PartialEq, Eq, Structural, Clone, Copy, Debug)]
pub enum FileKind {
    /// A table of the flushes from the first number to the last.
    Table(u64, u64),
    /// A file that claims to be a table under a name that says nothing.
    Unrecognised,
    /// A table that was never published. Nothing refers to it.
    Unfinished,
    /// Not a file of the store's tables.
    Other,
}

pub open spec fn kind_of(name: Seq<u8>) -> FileKind {
    if extension(name) == Some(table_extension()) {
        match span_of(name) {
            Some((first, last)) => FileKind::Table(first, last),
            None => FileKind::Unrecognised,
        }
    } else if extension(name) == Some(tmp_extension()) {
        FileKind::Unfinished
    } else {
        FileKind::Other
    }
}

/// The name of a table gives back the flushes it was made from, and is
/// recognised as a table's.
pub proof fn table_names_read_back(first: u64, last: u64)
    ensures
        span_of(name_of(first, last)) == Some((first, last)),
        kind_of(name_of(first, last)) == FileKind::Table(first, last),
{
    let a = text::padded(first as nat, NUMBER_WIDTH as nat);
    let b = text::padded(last as nat, NUMBER_WIDTH as nat);
    text::lemma_padded(first as nat, NUMBER_WIDTH as nat);
    text::lemma_padded(last as nat, NUMBER_WIDTH as nat);
    text::decimal_reads_back(first, NUMBER_WIDTH as nat);
    text::decimal_reads_back(last, NUMBER_WIDTH as nat);
    let name = name_of(first, last);
    let head = prefix() + a + seq![MINUS] + b;
    assert(name =~= head + seq![DOT] + table_extension());
    text::lemma_last_of_is(name, DOT, head.len() as int);
    assert(name.take(head.len() as int) =~= head);
    assert(name.skip(head.len() as int + 1) =~= table_extension());
    assert(head.take(prefix().len() as int) =~= prefix());
    let numbers = head.skip(prefix().len() as int);
    assert(numbers =~= a + seq![MINUS] + b);
    assert forall|i: int| 0 <= i < a.len() implies #[trigger] numbers[i] != MINUS by {
        assert(text::is_digit(a[i]));
    }
    text::lemma_first_of_is(numbers, MINUS, a.len() as int);
    assert(numbers.take(a.len() as int) =~= a);
    assert(numbers.skip(a.len() as int + 1) =~= b);
}

/// A table that is still being written is not taken for a table.
pub proof fn unfinished_names_are_recognised(first: u64, last: u64)
    ensures
        kind_of(tmp_name_of(first, last)) == FileKind::Unfinished,
{
    let name = tmp_name_of(first, last);
    let head = name_of(first, last);
    text::lemma_last_of_is(name, DOT, head.len() as int);
    assert(name.skip(head.len() as int + 1) =~= tmp_extension());
    assert(tmp_extension()[0] != table_extension()[0]);
}

/// Where the last dot of a name stands, counting from one; nothing is zero.
fn dot_position(name: &[u8]) -> (at: usize)
    ensures
        at == text::last_of(name@, DOT) + 1,
        at <= name@.len(),
{
    let mut at: usize = name.len();
    while at > 0 && name[at - 1] != DOT
        invariant
            at <= name@.len(),
            forall|i: int| at <= i < name@.len() ==> #[trigger] name@[i] != DOT,
        decreases at,
    {
        at = at - 1;
    }
    proof {
        text::lemma_last_of_is(name@, DOT, at - 1);
    }
    at
}

fn prefix_bytes() -> (r: Vec<u8>)
    ensures
        r@ == prefix(),
{
    let r: Vec<u8> = vec![115, 115, 116, 97, 98, 108, 101, 45];
    assert(r@ =~= prefix());
    r
}

/// The flushes that the table of this name covers, where the name follows the
/// scheme.
pub fn parse_span(name: &[u8]) -> (r: Option<(u64, u64)>)
    ensures
        r == span_of(name@),
{
    let dot: usize = dot_position(name);
    let end: usize = if dot <= 1 {
        name.len()
    } else {
        dot - 1
    };
    let base = codec::copy_range(name, 0, end);
    assert(base@ =~= stem(name@));
    if base.len() < 8 {
        return None;
    }
    let head = codec::copy_range(base.as_slice(), 0, 8);
    assert(head@ =~= base@.take(8));
    if !order::same(head.as_slice(), prefix_bytes().as_slice()) {
        return None;
    }
    let ghost numbers = base@.skip(8);
    let dash: usize = text::position_of(base.as_slice(), 8, MINUS);
    if dash == base.len() {
        return None;
    }
    let first = codec::copy_range(base.as_slice(), 8, dash);
    let last = codec::copy_range(base.as_slice(), dash + 1, base.len());
    assert(first@ =~= numbers.take(dash - 8));
    assert(last@ =~= numbers.skip(dash - 8 + 1));
    match (text::parse_u64(first.as_slice()), text::parse_u64(last.as_slice())) {
        (Some(a), Some(b)) => Some((a, b)),
        _ => None,
    }
}

/// The file name of the table of the flushes `first` to `last`.
pub fn table_name(first: u64, last: u64) -> (name: Vec<u8>)
    ensures
        name@ == name_of(first, last),
{
    let mut name: Vec<u8> = prefix_bytes();
    text::put_padded(&mut name, first, NUMBER_WIDTH);
    name.push(MINUS);
    text::put_padded(&mut name, last, NUMBER_WIDTH);
    name.push(DOT);
    name.push(115);
    name.push(115);
    name.push(116);
    assert(name@ =~= name_of(first, last));
    name
}

/// The name of the same table before it is published.
pub fn tmp_name(first: u64, last: u64) -> (name: Vec<u8>)
    ensures
        name@ == tmp_name_of(first, last),
{
    let mut name: Vec<u8> = table_name(first, last);
    name.push(DOT);
    name.push(116);
    name.push(109);
    name.push(112);
    assert(name@ =~= tmp_name_of(first, last));
    name
}

/// Tells what a file is by its name.
pub fn classify(name: &[u8]) -> (r: FileKind)
    ensures
        r == kind_of(name@),
{
    let dot: usize = dot_position(name);
    if dot <= 1 {
        return FileKind::Other;
    }
    let ext = codec::copy_range(name, dot, name.len());
    assert(ext@ =~= name@.skip(dot as int));
    let sst: Vec<u8> = vec![115, 115, 116];
    let tmp: Vec<u8> = vec![116, 109, 112];
    assert(sst@ =~= table_extension());
    assert(tmp@ =~= tmp_extension());
    if order::same(ext.as_slice(), sst.as_slice()) {
        match parse_span(name) {
            Some((first, last)) => FileKind::Table(first, last),
            None => FileKind::Unrecognised,
        }
    } else if order::same(ext.as_slice(), tmp.as_slice()) {
        FileKind::Unfinished
    } else {
        FileKind::Other
    }
}

/// What is wrong with a table's name, in words.
pub fn describe_unrecognised(path: &[u8]) -> (r: Vec<u8>)
    ensures
        r@ == path@ + text::utf8(" does not follow the SSTable naming scheme"@),
{
    let mut r: Vec<u8> = vstd::slice::slice_to_vec(path);
    codec::put_bytes(&mut r, " does not follow the SSTable naming scheme".as_bytes());
    r
}

// --------------------------------------------------------------------- laws

/// The name of a table: `sstable-`, its two numbers with at least six digits each
/// and a dash between them, and `.sst`; and `.tmp` behind that while it is being
/// written.
pub proof fn the_name_of_a_table(first: u64, last: u64)
    ensures
        name_of(first, last) == seq![115u8, 115u8, 116u8, 97u8, 98u8, 108u8, 101u8, 45u8]
            + text::padded(first as nat, 6) + seq![45u8] + text::padded(last as nat, 6) + seq![
            46u8,
            115u8,
            115u8,
            116u8,
        ],
        tmp_name_of(first, last) == name_of(first, last) + seq![46u8, 116u8, 109u8, 112u8],
{
    assert(seq![46u8] + table_extension() =~= seq![46u8, 115u8, 115u8, 116u8]);
    assert(seq![46u8] + tmp_extension() =~= seq![46u8, 116u8, 109u8, 112u8]);
    let a = text::padded(first as nat, 6);
    let b = text::padded(last as nat, 6);
    assert(name_of(first, last) =~= seq![115u8, 115u8, 116u8, 97u8, 98u8, 108u8, 101u8, 45u8] + a
        + seq![45u8] + b + seq![46u8, 115u8, 115u8, 116u8]);
    assert(tmp_name_of(first, last) =~= name_of(first, last) + seq![46u8, 116u8, 109u8, 112u8]);
}

/// A file name is split at its last dot, unless that comes first.
pub proof fn names_are_split_at_the_last_dot(base: Seq<u8>, ext: Seq<u8>)
    requires
        base.len() > 0,
        forall|i: int| 0 <= i < ext.len() ==> #[trigger] ext[i] != 46,
    ensures
        stem(base + seq![46u8] + ext) == base,
        extension(base + seq![46u8] + ext) == Some(ext),
        extension(seq![46u8] + ext) is None,
        extension(ext) is None,
        stem(ext) == ext,
{
    let name = base + seq![46u8] + ext;
    assert forall|i: int| base.len() < i < name.len() implies #[trigger] name[i] != 46 by {
        assert(name[i] == ext[i - base.len() - 1]);
    }
    text::lemma_last_of_is(name, 46, base.len() as int);
    assert(name.take(base.len() as int) =~= base);
    assert(name.skip(base.len() as int + 1) =~= ext);
    let hidden = seq![46u8] + ext;
    assert forall|i: int| 0 < i < hidden.len() implies #[trigger] hidden[i] != 46 by {
        assert(hidden[i] == ext[i - 1]);
    }
    text::lemma_last_of_is(hidden, 46, 0);
    text::lemma_last_of_is(ext, 46, -1);
}

/// A name gives the flushes of a table exactly where it is `sstable-`, a number, a
/// dash and a number, whatever its extension; and the numbers are those.
pub proof fn a_span_is_two_numbers(base: Seq<u8>, ext: Seq<u8>, a: Seq<u8>, b: Seq<u8>)
    requires
        base == seq![115u8, 115u8, 116u8, 97u8, 98u8, 108u8, 101u8, 45u8] + a + seq![45u8] + b,
        forall|i: int| 0 <= i < a.len() ==> #[trigger] a[i] != 45,
        forall|i: int| 0 <= i < ext.len() ==> #[trigger] ext[i] != 46,
    ensures
        span_of(base + seq![46u8] + ext) == (match (
            text::spec_parse_u64(a),
            text::spec_parse_u64(b),
        ) {
            (Some(first), Some(last)) => Some((first, last)),
            _ => None,
        }),
{
    names_are_split_at_the_last_dot(base, ext);
    assert(base.take(8) =~= prefix());
    let numbers = base.skip(8);
    assert(numbers =~= a + seq![45u8] + b);
    assert forall|i: int| 0 <= i < a.len() implies #[trigger] numbers[i] != 45 by {
        assert(numbers[i] == a[i]);
    }
    text::lemma_first_of_is(numbers, 45, a.len() as int);
    assert(numbers.take(a.len() as int) =~= a);
    assert(numbers.skip(a.len() as int + 1) =~= b);
}

/// No other name does: not one that begins otherwise, and not one without a dash
/// between two numbers.
pub proof fn no_other_name_has_a_span(base: Seq<u8>, ext: Seq<u8>)
    requires
        base.len() > 0,
        forall|i: int| 0 <= i < ext.len() ==> #[trigger] ext[i] != 46,
        base.len() < 8 || base.take(8) != seq![
            115u8,
            115u8,
            116u8,
            97u8,
            98u8,
            108u8,
            101u8,
            45u8,
        ] || forall|i: int| 8 <= i < base.len() ==> #[trigger] base[i] != 45,
    ensures
        span_of(base + seq![46u8] + ext) is None,
{
    names_are_split_at_the_last_dot(base, ext);
    if base.len() >= 8 {
        let numbers = base.skip(8);
        if forall|i: int| 8 <= i < base.len() ==> #[trigger] base[i] != 45 {
            assert forall|i: int| 0 <= i < numbers.len() implies #[trigger] numbers[i] != 45 by {
                assert(base[i + 8] != 45);
            }
            text::lemma_first_of_is(numbers, 45, numbers.len() as int);
        }
    }
}

/// What a file is, by its extension: `sst` is a table where the name gives its
/// flushes and is not recognised otherwise, `tmp` is a table that was never
/// finished, and everything else is none of the store's tables.
pub proof fn the_extension_tells_what_a_file_is(name: Seq<u8>)
    ensures
        kind_of(name) == (if extension(name) == Some(seq![115u8, 115u8, 116u8]) {
            match span_of(name) {
                Some((first, last)) => FileKind::Table(first, last),
                None => FileKind::Unrecognised,
            }
        } else if extension(name) == Some(seq![116u8, 109u8, 112u8]) {
            FileKind::Unfinished
        } else {
            FileKind::Other
        }),
{
    assert(seq![115u8, 115u8, 116u8][0] != seq![116u8, 109u8, 112u8][0]);
}

} // verus!
