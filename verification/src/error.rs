//! The errors that the database reports.
use vstd::prelude::*;

verus! {

/// The operating system's error type, carried through without being inspected.
#[verifier::external_type_specification]
#[verifier::external_body]
pub struct ExIoError(std::io::Error);

/// Errors returned by actdb.
#[derive(Debug)]
#[non_exhaustive]
pub enum Error {
    /// A storage operation failed.
    Io(std::io::Error),
    /// Another process already owns the database file.
    Locked,
    /// The file is not an actdb database.
    InvalidFormat(&'static str),
    /// The database uses a newer or otherwise unsupported format.
    UnsupportedVersion(u16),
    /// A persisted checksum, pointer, or structural invariant is invalid.
    Corrupt(String),
    /// A key exceeds the format limit.
    KeyTooLarge {
        /// Supplied key length.
        actual: usize,
        /// Maximum accepted key length.
        maximum: usize,
    },
    /// A value exceeds the format limit.
    ValueTooLarge {
        /// Supplied value length.
        actual: usize,
        /// Maximum accepted value length.
        maximum: usize,
    },
    /// An option is outside its accepted range.
    InvalidOption(&'static str),
    /// A transaction cannot continue after an earlier failure.
    TransactionClosed,
    /// A scan cannot continue after an earlier traversal or seek failure.
    ScanClosed,
}

/// A result returned by actdb.
pub type Result<T> = std::result::Result<T, Error>;

/// The corruption error that carries `message`.
pub fn corrupt(message: &str) -> (error: Error)
    ensures
        error is Corrupt,
        error->Corrupt_0@ == message@,
{
    Error::Corrupt(message.to_owned())
}

/// The decimal digits of a number.
pub open spec fn digits(value: nat) -> Seq<char>
    decreases value,
{
    let last = ((0x30 + value % 10) as u8) as char;
    if value < 10 {
        seq![last]
    } else {
        digits(value / 10).push(last)
    }
}

/// One decimal digit.
fn digit(value: u64) -> (text: &'static str)
    requires
        value < 10,
    ensures
        text@ == seq![((0x30 + value) as u8) as char],
{
    proof {
        reveal_strlit("0");
        reveal_strlit("1");
        reveal_strlit("2");
        reveal_strlit("3");
        reveal_strlit("4");
        reveal_strlit("5");
        reveal_strlit("6");
        reveal_strlit("7");
        reveal_strlit("8");
        reveal_strlit("9");
    }
    let text = match value {
        0 => "0",
        1 => "1",
        2 => "2",
        3 => "3",
        4 => "4",
        5 => "5",
        6 => "6",
        7 => "7",
        8 => "8",
        _ => "9",
    };
    assert(text@ =~= seq![((0x30 + value) as u8) as char]);
    text
}

/// A number in decimal digits, without sign or leading zeros.
fn decimal(value: u64) -> (text: String)
    ensures
        text@ == digits(value as nat),
    decreases value,
{
    let last = digit(value % 10);
    if value < 10 {
        last.to_owned()
    } else {
        let mut text = decimal(value / 10);
        text.append(last);
        assert(text@ =~= digits(value as nat));
        text
    }
}

/// The text `before`, the number in decimal, and the text `after`.
fn numbered(before: &str, number: u64, after: &str) -> (text: String)
    ensures
        text@ == before@ + digits(number as nat) + after@,
{
    let mut text = before.to_owned();
    text.append(decimal(number).as_str());
    text.append(after);
    text
}

/// The error for a page identifier outside the snapshot.
pub fn outside_snapshot(page_id: u64) -> (error: Error)
    ensures
        error is Corrupt,
        error->Corrupt_0@ == "page "@ + digits(page_id as nat) + " is outside the snapshot"@,
{
    Error::Corrupt(numbered("page ", page_id, " is outside the snapshot"))
}

/// The error for a page of an unexpected type in the user tree.
pub fn unexpected_tree_page(kind: u8) -> (error: Error)
    ensures
        error is Corrupt,
        error->Corrupt_0@ == "unexpected tree page type "@ + digits(kind as nat) + ""@,
{
    Error::Corrupt(numbered("unexpected tree page type ", kind as u64, ""))
}

/// The error for a page of an unexpected type in the free tree.
pub fn unexpected_free_page(kind: u8) -> (error: Error)
    ensures
        error is Corrupt,
        error->Corrupt_0@ == "unexpected free-tree page type "@ + digits(kind as nat) + ""@,
{
    Error::Corrupt(numbered("unexpected free-tree page type ", kind as u64, ""))
}

} // verus!
