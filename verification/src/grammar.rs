//! The line grammar of `git log --name-status -M -C --pretty=format:%H%n%at`,
//! as functions on sequences of characters.
//!
//! A log is a sequence of lines. Each commit is a line with its hash, a line
//! with its time in seconds, and one line per changed file; blank lines may
//! stand anywhere and mean nothing. A line that names a change holds two or
//! three fields separated by tabs: a code (`A`, `D`, `M`, `T`, `R<nn>`,
//! `C<nn>`), then the file's name, or its old and its new name.

use crate::decimal::{is_integer, is_unsigned, integer_value, unsigned_value};
use crate::hex::{is_hash_text, HASH_BYTES};
use crate::types::{parsed_hash, Change, CommitView, DeltaView, SHA1ParseError, Timestamp};
use vstd::prelude::*;

verus! {

/// What is wrong with a line of the log.
#[derive(Copy, Clone, Debug, PartialEq, Eq)]
pub enum ParseErrorKind {
    /// The line should hold a commit's hash and does not.
    BadHash(SHA1ParseError),
    /// The line should hold a commit's time and is a hash, or no integer, or
    /// one that does not fit in 64 bits.
    BadTimestamp,
    /// A change has fewer than two fields, or not the number that its code
    /// calls for: three for a rename or a copy, two for the others.
    WrongTokenCount,
    /// The code of a change is empty or begins with none of `ADMTRC`.
    UnknownCode,
    /// What follows `R` or `C` is no number from 0 to 100.
    BadPercentage,
}

/// The first line of a log that cannot be read: its index, counted from 0,
/// and what is wrong with it.
#[derive(Copy, Clone, Debug, PartialEq, Eq)]
pub struct ParseError {
    pub line: usize,
    pub kind: ParseErrorKind,
}

/// What the parser expects of the next line that is not blank.
#[derive(Copy, Clone, Debug, PartialEq, Eq)]
pub enum ParseState {
    /// The hash of the first commit.
    Hash,
    /// The time of the commit whose hash was just read.
    Timestamp,
    /// A change of the current commit, or the hash of the next one.
    Changes,
}

/// The positions of the tabs in `s`, in increasing order.
pub open spec fn tab_positions(s: Seq<char>) -> Seq<int>
    decreases s.len(),
{
    if s.len() == 0 {
        Seq::empty()
    } else if s.last() == '\t' {
        tab_positions(s.drop_last()).push(s.len() - 1)
    } else {
        tab_positions(s.drop_last())
    }
}

/// Where the field with index `k` begins: at the start, or behind a tab.
pub open spec fn field_start(s: Seq<char>, k: int) -> int {
    if k == 0 {
        0
    } else {
        tab_positions(s)[k - 1] + 1
    }
}

/// Where the field with index `k` ends: at the next tab, or at the end.
pub open spec fn field_end(s: Seq<char>, k: int) -> int {
    if k == tab_positions(s).len() {
        s.len() as int
    } else {
        tab_positions(s)[k]
    }
}

/// The pieces of `s` between its tabs: one more than there are tabs.
pub open spec fn fields(s: Seq<char>) -> Seq<Seq<char>> {
    Seq::new(
        tab_positions(s).len() + 1,
        |k: int| s.subrange(field_start(s, k), field_end(s, k)),
    )
}

/// No character of `s` is a tab.
pub open spec fn tab_free(s: Seq<char>) -> bool {
    forall|i: int| 0 <= i < s.len() ==> #[trigger] s[i] != '\t'
}

/// The positions in `tab_positions(s)` are those of tabs, inside `s`, and
/// they increase.
pub proof fn lemma_tab_positions(s: Seq<char>)
    ensures
        tab_positions(s).len() <= s.len(),
        forall|k: int|
            0 <= k < tab_positions(s).len() ==> 0 <= #[trigger] tab_positions(s)[k] < s.len()
                && s[tab_positions(s)[k]] == '\t',
        forall|j: int, k: int|
            0 <= j < k < tab_positions(s).len() ==> #[trigger] tab_positions(s)[j]
                < #[trigger] tab_positions(s)[k],
    decreases s.len(),
{
    if s.len() > 0 {
        lemma_tab_positions(s.drop_last());
    }
}

/// The percentage that follows the letter of a rename's or a copy's code.
pub open spec fn percent_of(code: Seq<char>) -> Option<u8> {
    let rest = code.subrange(1, code.len() as int);
    if is_unsigned(rest) && unsigned_value(rest) <= 100 {
        Some(unsigned_value(rest) as u8)
    } else {
        None
    }
}

/// The change that a code names. Its first character decides; for `R` and
/// `C` the rest is the percentage, for the other letters it is ignored.
pub open spec fn change_of(code: Seq<char>) -> Result<Change, ParseErrorKind> {
    if code.len() == 0 {
        Err(ParseErrorKind::UnknownCode)
    } else if code[0] == 'A' {
        Ok(Change::Added)
    } else if code[0] == 'D' {
        Ok(Change::Deleted)
    } else if code[0] == 'M' || code[0] == 'T' {
        Ok(Change::Modified)
    } else if code[0] == 'R' {
        match percent_of(code) {
            Some(p) => Ok(Change::Renamed { percent_changed: p }),
            None => Err(ParseErrorKind::BadPercentage),
        }
    } else if code[0] == 'C' {
        match percent_of(code) {
            Some(p) => Ok(Change::Copied { percent_changed: p }),
            None => Err(ParseErrorKind::BadPercentage),
        }
    } else {
        Err(ParseErrorKind::UnknownCode)
    }
}

/// The change names the file's earlier name besides its current one.
pub open spec fn has_source(change: Change) -> bool {
    change is Renamed || change is Copied
}

/// The change that a line names.
pub open spec fn delta_of(line: Seq<char>) -> Result<DeltaView, ParseErrorKind> {
    let f = fields(line);
    if f.len() < 2 {
        Err(ParseErrorKind::WrongTokenCount)
    } else {
        match change_of(f[0]) {
            Err(e) => Err(e),
            Ok(change) => if has_source(change) {
                if f.len() == 3 {
                    Ok(DeltaView { change, path: f[2], from: f[1] })
                } else {
                    Err(ParseErrorKind::WrongTokenCount)
                }
            } else {
                if f.len() == 2 {
                    Ok(DeltaView { change, path: f[1], from: Seq::empty() })
                } else {
                    Err(ParseErrorKind::WrongTokenCount)
                }
            },
        }
    }
}

/// The time that a line names: whole seconds.
pub open spec fn timestamp_of(line: Seq<char>) -> Result<Timestamp, ParseErrorKind> {
    if !is_hash_text(line) && is_integer(line) && i64::MIN <= integer_value(line) <= i64::MAX {
        Ok(Timestamp { sec: integer_value(line) as i64, nsec: 0 })
    } else {
        Err(ParseErrorKind::BadTimestamp)
    }
}

/// A commit of which only the hash is known.
pub open spec fn fresh_commit(id: Seq<u8>) -> CommitView {
    CommitView { id, when: Timestamp { sec: 0, nsec: 0 }, deltas: Seq::empty() }
}

/// The parser between two lines.
pub struct ParserView {
    /// What the next line should hold.
    pub state: ParseState,
    /// The commit that is being read.
    pub current: CommitView,
}

/// What one line does to the parser.
pub struct Step {
    /// The parser after the line.
    pub next: ParserView,
    /// The commit that the line completed, if it did.
    pub emitted: Option<CommitView>,
}

/// The parser before the first line.
pub open spec fn start() -> ParserView {
    ParserView {
        state: ParseState::Hash,
        current: fresh_commit(Seq::new(HASH_BYTES as nat, |i: int| 0u8)),
    }
}

/// One line. A blank line changes nothing. Otherwise the state decides what
/// the line must be: a hash, a time, or a change or the next commit's hash,
/// which completes the current commit.
pub open spec fn step(p: ParserView, line: Seq<char>) -> Result<Step, ParseErrorKind> {
    if line.len() == 0 {
        Ok(Step { next: p, emitted: None })
    } else {
        match p.state {
            ParseState::Hash => match parsed_hash(line) {
                Ok(id) => Ok(
                    Step {
                        next: ParserView { state: ParseState::Timestamp, current: fresh_commit(id) },
                        emitted: None,
                    },
                ),
                Err(e) => Err(ParseErrorKind::BadHash(e)),
            },
            ParseState::Timestamp => match timestamp_of(line) {
                Ok(when) => Ok(
                    Step {
                        next: ParserView {
                            state: ParseState::Changes,
                            current: CommitView { when, ..p.current },
                        },
                        emitted: None,
                    },
                ),
                Err(e) => Err(e),
            },
            ParseState::Changes => match parsed_hash(line) {
                Ok(id) => Ok(
                    Step {
                        next: ParserView { state: ParseState::Timestamp, current: fresh_commit(id) },
                        emitted: Some(p.current),
                    },
                ),
                Err(_) => match delta_of(line) {
                    Ok(d) => Ok(
                        Step {
                            next: ParserView {
                                state: ParseState::Changes,
                                current: CommitView {
                                    deltas: p.current.deltas.push(d),
                                    ..p.current
                                },
                            },
                            emitted: None,
                        },
                    ),
                    Err(e) => Err(e),
                },
            },
        }
    }
}

/// The commit that the end of the log completes: the current one, once its
/// hash and its time have been read.
pub open spec fn flush(p: ParserView) -> Option<CommitView> {
    if p.state is Changes {
        Some(p.current)
    } else {
        None
    }
}

/// The parser and the commits completed so far.
pub struct Progress {
    pub parser: ParserView,
    pub commits: Seq<CommitView>,
}

/// `commits` with the commit that a step completed, if any.
pub open spec fn with_emitted(commits: Seq<CommitView>, emitted: Option<CommitView>) -> Seq<
    CommitView,
> {
    match emitted {
        Some(c) => commits.push(c),
        None => commits,
    }
}

/// Where the parser stands after `lines`, read from the start, or the first
/// line that it cannot read.
pub open spec fn progress(lines: Seq<Seq<char>>) -> Result<Progress, ParseError>
    decreases lines.len(),
{
    if lines.len() == 0 {
        Ok(Progress { parser: start(), commits: Seq::empty() })
    } else {
        match progress(lines.drop_last()) {
            Err(e) => Err(e),
            Ok(before) => match step(before.parser, lines.last()) {
                Err(kind) => Err(ParseError { line: (lines.len() - 1) as usize, kind }),
                Ok(s) => Ok(
                    Progress {
                        parser: s.next,
                        commits: with_emitted(before.commits, s.emitted),
                    },
                ),
            },
        }
    }
}

/// The commits of a whole log, in the order in which the log names them, or
/// its first unreadable line.
pub open spec fn parsed_log(lines: Seq<Seq<char>>) -> Result<Seq<CommitView>, ParseError> {
    match progress(lines) {
        Err(e) => Err(e),
        Ok(p) => Ok(with_emitted(p.commits, flush(p.parser))),
    }
}

} // verus!
