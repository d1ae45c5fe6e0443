//! The value types shared by the parser and the history builder.

use crate::hex::{
    digit_str, digit_value, hash_bytes, hash_text, is_hash_text, is_hex_digit,
    law_print_then_read, law_read_then_print, to_lowercase, HASH_BYTES, HASH_DIGITS,
};
use std::rc::Rc;
use vstd::prelude::*;
use vstd::string::*;
use vstd::utf8::{encode_utf8, is_ascii_chars_encode_utf8};

verus! {

/// The kind of change that a commit made to a file.
///
/// Renames and copies carry Git's similarity index, a percentage.
#[derive(Copy, Clone, Debug, PartialEq, Eq)]
pub enum Change {
    Added,
    Deleted,
    Modified,
    Renamed { percent_changed: u8 },
    Copied { percent_changed: u8 },
}

/// One file's change within a commit.
#[derive(Clone, Debug, PartialEq, Eq)]
pub struct FileDelta {
    /// The kind of change.
    pub change: Change,
    /// The name of the file after the change.
    pub path: String,
    /// The name of the file before a rename or a copy; empty for the other
    /// kinds.
    pub from: String,
}

/// What a [`FileDelta`] holds, with its names as sequences of characters.
pub struct DeltaView {
    pub change: Change,
    pub path: Seq<char>,
    pub from: Seq<char>,
}

impl View for FileDelta {
    type V = DeltaView;

    open spec fn view(&self) -> DeltaView {
        DeltaView { change: self.change, path: self.path@, from: self.from@ }
    }
}

/// What a commit holds, with its hash as bytes and its changes as views.
pub struct CommitView {
    pub id: Seq<u8>,
    pub when: Timestamp,
    pub deltas: Seq<DeltaView>,
}

/// The views of a run of changes.
pub open spec fn delta_views(deltas: Seq<FileDelta>) -> Seq<DeltaView> {
    deltas.map_values(|d: FileDelta| d@)
}

/// The number of nanoseconds in a second.
pub const NSEC_PER_SEC: i32 = 1_000_000_000;

/// A point in time: seconds since the Unix epoch, and nanoseconds past that
/// second.
#[derive(Copy, Clone, Debug, PartialEq, Eq, PartialOrd, Ord, Hash)]
pub struct Timestamp {
    pub sec: i64,
    pub nsec: i32,
}

/// Builds the timestamp with `time::Timespec::new`, which keeps both numbers
/// as they are given and panics when `nsec` is negative or a full second or
/// more; the precondition leaves those values out.
#[verifier::external_body]
fn timespec(sec: i64, nsec: i32) -> (t: Timestamp)
    requires
        0 <= nsec < NSEC_PER_SEC,
    ensures
        t.sec == sec,
        t.nsec == nsec,
{
    let t = time::Timespec::new(sec, nsec);
    Timestamp { sec: t.sec, nsec: t.nsec }
}

impl Timestamp {
    /// The nanoseconds are a fraction of one second.
    pub open spec fn wf(&self) -> bool {
        0 <= self.nsec < NSEC_PER_SEC
    }

    /// `self` is no later than `other`.
    pub open spec fn at_or_before(&self, other: Timestamp) -> bool {
        self.sec < other.sec || (self.sec == other.sec && self.nsec <= other.nsec)
    }

    /// The time `nsec` nanoseconds after the second `sec`.
    pub fn new(sec: i64, nsec: i32) -> (t: Timestamp)
        requires
            0 <= nsec < NSEC_PER_SEC,
        ensures
            t == (Timestamp { sec, nsec }),
            t.wf(),
    {
        timespec(sec, nsec)
    }
}

/// A twenty-byte SHA-1 hash, the name of an object in Git.
#[derive(Copy, Clone, Debug, PartialEq, Eq, Hash)]
pub struct SHA1 {
    bytes: [u8; 20],
}

/// Why a string is not the text form of a hash.
#[derive(Copy, Clone, Debug, PartialEq, Eq)]
pub enum SHA1ParseError {
    /// The string is not forty bytes long.
    IncorrectLength,
    /// The string is forty bytes long, and one of them is no hexadecimal digit.
    InvalidHexadecimal,
}

/// What a string of forty hexadecimal digits spells, or why `s` is none.
/// The length is that of the string's UTF-8 form.
pub open spec fn parsed_hash(s: Seq<char>) -> Result<Seq<u8>, SHA1ParseError> {
    if encode_utf8(s).len() != HASH_DIGITS {
        Err(SHA1ParseError::IncorrectLength)
    } else if !is_hash_text(s) {
        Err(SHA1ParseError::InvalidHexadecimal)
    } else {
        Ok(hash_bytes(s))
    }
}

/// Forty hexadecimal digits are forty bytes of UTF-8, so they always parse.
pub proof fn lemma_hash_text_parses(s: Seq<char>)
    requires
        is_hash_text(s),
    ensures
        parsed_hash(s) == Ok::<Seq<u8>, SHA1ParseError>(hash_bytes(s)),
{
    assert forall|k: int| 0 <= k < s.len() implies '\0' <= #[trigger] s[k] <= '\u{7f}' by {
        assert(is_hex_digit(s[k]));
    }
    is_ascii_chars_encode_utf8(s);
}

/// Parsing forty hexadecimal digits and printing the hash gives the digits
/// back, with the capitals among them turned into small letters.
pub proof fn law_parse_then_print(s: Seq<char>)
    requires
        is_hash_text(s),
    ensures
        parsed_hash(s) is Ok,
        hash_text(parsed_hash(s).unwrap()) == to_lowercase(s),
{
    lemma_hash_text_parses(s);
    law_read_then_print(s);
}

/// Printing a hash and parsing the text gives the hash back.
pub proof fn law_print_then_parse_hash(bytes: Seq<u8>)
    requires
        bytes.len() == HASH_BYTES,
    ensures
        parsed_hash(hash_text(bytes)) == Ok::<Seq<u8>, SHA1ParseError>(bytes),
{
    law_print_then_read(bytes);
    lemma_hash_text_parses(hash_text(bytes));
}

impl View for SHA1 {
    type V = Seq<u8>;

    closed spec fn view(&self) -> Seq<u8> {
        self.bytes@
    }
}

impl SHA1 {
    /// Reads a hash from its forty hexadecimal digits, in either case.
    pub fn parse(s: &str) -> (r: Result<SHA1, SHA1ParseError>)
        ensures
            match r {
                Ok(h) => parsed_hash(s@) == Ok::<Seq<u8>, SHA1ParseError>(h@),
                Err(e) => parsed_hash(s@) == Err::<Seq<u8>, SHA1ParseError>(e),
            },
    {
        let text = s.as_bytes();
        if text.len() != HASH_DIGITS {
            return Err(SHA1ParseError::IncorrectLength);
        }
        if !s.is_ascii() {
            assert(!is_hash_text(s@)) by {
                if is_hash_text(s@) {
                    assert forall|k: int| 0 <= k < s@.len() implies '\0' <= #[trigger] s@[k]
                        <= '\u{7f}' by {
                        assert(is_hex_digit(s@[k]));
                    }
                }
            }
            return Err(SHA1ParseError::InvalidHexadecimal);
        }
        assert(s@.len() == HASH_DIGITS) by {
            is_ascii_spec_bytes(s);
            assert(s.spec_bytes().len() == s@.len());
        }
        let mut bytes = [0u8; 20];
        let mut i: usize = 0;
        while i < HASH_BYTES
            invariant
                i <= HASH_BYTES,
                s.is_ascii(),
                s@.len() == HASH_DIGITS,
                encode_utf8(s@).len() == HASH_DIGITS,
                forall|k: int| 0 <= k < 2 * i ==> is_hex_digit(#[trigger] s@[k]),
                forall|k: int| 0 <= k < i ==> #[trigger] bytes@[k] == hash_bytes(s@)[k],
            decreases HASH_BYTES - i,
        {
            let high = match digit_value(s.get_ascii(2 * i)) {
                Some(v) => v,
                None => {
                    return Err(SHA1ParseError::InvalidHexadecimal);
                },
            };
            let low = match digit_value(s.get_ascii(2 * i + 1)) {
                Some(v) => v,
                None => {
                    return Err(SHA1ParseError::InvalidHexadecimal);
                },
            };
            bytes[i] = 16 * high + low;
            i += 1;
        }
        let h = SHA1 { bytes };
        assert(h@ =~= hash_bytes(s@));
        Ok(h)
    }

    /// The hash as forty lower-case hexadecimal digits.
    pub fn to_string(&self) -> (r: String)
        ensures
            r@ == hash_text(self@),
    {
        let mut r = String::new();
        let mut i: usize = 0;
        while i < HASH_BYTES
            invariant
                i <= HASH_BYTES,
                r@ == hash_text(self@.take(i as int)),
            decreases HASH_BYTES - i,
        {
            let b = self.bytes[i];
            r.append(digit_str(b / 16));
            r.append(digit_str(b % 16));
            assert(r@ =~= hash_text(self@.take(i + 1))) by {
                let before = hash_text(self@.take(i as int));
                let after = hash_text(self@.take(i + 1));
                assert(after.len() == before.len() + 2);
                assert forall|k: int| 0 <= k < before.len() implies before[k] == after[k] by {
                    assert(self@.take(i as int)[k / 2] == self@.take(i + 1)[k / 2]);
                }
            }
            i += 1;
        }
        assert(self@.take(HASH_BYTES as int) =~= self@);
        r
    }

    /// The bytes of the hash.
    pub fn as_bytes(&self) -> (r: &[u8; 20])
        ensures
            r@ == self@,
    {
        &self.bytes
    }

    /// The hash with the given bytes.
    pub fn from_bytes(bytes: [u8; 20]) -> (r: SHA1)
        ensures
            r@ == bytes@,
    {
        SHA1 { bytes }
    }
}

impl Default for SHA1 {
    /// The hash whose bytes are all zero.
    fn default() -> (r: SHA1)
        ensures
            r@ == Seq::new(HASH_BYTES as nat, |i: int| 0u8),
    {
        let r = SHA1 { bytes: [0u8; 20] };
        assert(r@ =~= Seq::new(HASH_BYTES as nat, |i: int| 0u8));
        r
    }
}

impl SHA1ParseError {
    /// A sentence that says what is wrong.
    pub fn description(&self) -> (r: &'static str)
        ensures
            r@ == match *self {
                SHA1ParseError::IncorrectLength => "String is not 40 characters long"@,
                SHA1ParseError::InvalidHexadecimal => "String is not valid hexadecimal"@,
            },
    {
        match *self {
            SHA1ParseError::IncorrectLength => "String is not 40 characters long",
            SHA1ParseError::InvalidHexadecimal => "String is not valid hexadecimal",
        }
    }

    /// The description, as an owned string.
    pub fn to_string(&self) -> (r: String)
        ensures
            r@ == match *self {
                SHA1ParseError::IncorrectLength => "String is not 40 characters long"@,
                SHA1ParseError::InvalidHexadecimal => "String is not valid hexadecimal"@,
            },
    {
        String::from_str(self.description())
    }
}

/// One change in the history of a file.
pub struct HistoryNode<T> {
    /// What the caller's visitor made of the commit that holds the change;
    /// `None` where the caller's filter turned the commit down. The node is
    /// there all the same, so that the chain keeps its shape. The nodes of
    /// one commit share one value.
    pub data: Option<Rc<T>>,
    /// The next older change to the same file, as the index of its node in
    /// the tree; `None` at the oldest change that is known.
    pub previous: Option<usize>,
}

} // verus!
