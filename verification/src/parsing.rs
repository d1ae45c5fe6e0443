//! Reads the output of `git log --name-status -M -C --pretty=format:%H%n%at`,
//! line by line, into commits.
//!
//! [`LogParser`] takes one line at a time, so that a caller can read a log of
//! any length from a pipe and hand each commit on as soon as it is complete.
//! [`get_history`] does the same for a log that is already in memory.

use crate::decimal::{read_integer, read_unsigned};
use crate::grammar::{
    change_of, delta_of, flush, lemma_tab_positions, parsed_log, progress, start, step,
    tab_positions, ParserView,
};
use crate::hex::is_hash_text;
use crate::types::{delta_views, lemma_hash_text_parses, CommitView, DeltaView};
use vstd::prelude::*;
use vstd::string::*;

pub use crate::grammar::{ParseError, ParseErrorKind, ParseState};
pub use crate::types::{Change, FileDelta, Timestamp, SHA1};

verus! {

/// A commit as the log describes it: its hash, its time, and the files that
/// it changed, in the order in which Git lists them.
#[derive(Clone, Debug, PartialEq, Eq)]
pub struct ParsedCommit {
    pub id: SHA1,
    /// The commit's time, in whole seconds since the Unix epoch.
    pub when: Timestamp,
    pub deltas: Vec<FileDelta>,
}

impl View for ParsedCommit {
    type V = CommitView;

    open spec fn view(&self) -> CommitView {
        CommitView { id: self.id@, when: self.when, deltas: delta_views(self.deltas@) }
    }
}

impl Default for ParsedCommit {
    /// The commit with the all-zero hash, at the epoch, that changes nothing.
    fn default() -> (r: ParsedCommit)
        ensures
            r@ == start().current,
    {
        let r = ParsedCommit { id: SHA1::default(), when: Timestamp::new(0, 0), deltas: Vec::new() };
        assert(r@.deltas =~= Seq::empty());
        r
    }
}

/// The views of a run of commits.
pub open spec fn commit_views(commits: Seq<ParsedCommit>) -> Seq<CommitView> {
    commits.map_values(|c: ParsedCommit| c@)
}

/// The views of a run of lines.
pub open spec fn line_views(lines: Seq<String>) -> Seq<Seq<char>> {
    lines.map_values(|l: String| l@)
}

/// The view of a commit that may be missing.
pub open spec fn emitted_view(c: Option<ParsedCommit>) -> Option<CommitView> {
    match c {
        Some(c) => Some(c@),
        None => None,
    }
}

/// Reads the code of a change, such as `M` or `R087`.
pub fn parse_change_code(c: &str) -> (r: Result<Change, ParseErrorKind>)
    ensures
        r == change_of(c@),
{
    let n = c.unicode_len();
    if n == 0 {
        return Err(ParseErrorKind::UnknownCode);
    }
    let letter = c.get_char(0);
    if letter == 'A' {
        Ok(Change::Added)
    } else if letter == 'D' {
        Ok(Change::Deleted)
    } else if letter == 'M' || letter == 'T' {
        Ok(Change::Modified)
    } else if letter == 'R' {
        match read_unsigned(c.substring_char(1, n), 100) {
            Some(p) => Ok(Change::Renamed { percent_changed: p as u8 }),
            None => Err(ParseErrorKind::BadPercentage),
        }
    } else if letter == 'C' {
        match read_unsigned(c.substring_char(1, n), 100) {
            Some(p) => Ok(Change::Copied { percent_changed: p as u8 }),
            None => Err(ParseErrorKind::BadPercentage),
        }
    } else {
        Err(ParseErrorKind::UnknownCode)
    }
}

/// The positions of the tabs in a line, counted in characters.
fn find_tabs(s: &str) -> (tabs: Vec<usize>)
    ensures
        tabs@.len() == tab_positions(s@).len(),
        forall|k: int| 0 <= k < tabs@.len() ==> #[trigger] tabs@[k] as int == tab_positions(s@)[k],
{
    let n = s.unicode_len();
    let mut tabs: Vec<usize> = Vec::new();
    let mut i: usize = 0;
    for c in it: s.chars()
        invariant
            it.seq() == s@,
            n == s@.len(),
            i == it.index(),
            tabs@.len() == tab_positions(s@.take(i as int)).len(),
            forall|k: int|
                0 <= k < tabs@.len() ==> #[trigger] tabs@[k] as int == tab_positions(
                    s@.take(i as int),
                )[k],
    {
        assert(s@.take(i + 1).drop_last() =~= s@.take(i as int));
        if c == '\t' {
            tabs.push(i);
        }
        i += 1;
    }
    assert(s@.take(i as int) =~= s@);
    tabs
}

/// Reads one line that names a change: a code, a tab, and one or two names
/// separated by a tab.
pub fn parse_delta(s: &str) -> (r: Result<FileDelta, ParseErrorKind>)
    ensures
        match r {
            Ok(d) => delta_of(s@) == Ok::<DeltaView, ParseErrorKind>(d@),
            Err(e) => delta_of(s@) == Err::<DeltaView, ParseErrorKind>(e),
        },
{
    let n = s.unicode_len();
    let tabs = find_tabs(s);
    proof {
        lemma_tab_positions(s@);
    }
    if tabs.len() < 1 {
        return Err(ParseErrorKind::WrongTokenCount);
    }
    let change = match parse_change_code(s.substring_char(0, tabs[0])) {
        Ok(c) => c,
        Err(e) => {
            return Err(e);
        },
    };
    match change {
        Change::Renamed { .. } | Change::Copied { .. } => {
            if tabs.len() != 2 {
                return Err(ParseErrorKind::WrongTokenCount);
            }
            let from = s.substring_char(tabs[0] + 1, tabs[1]).to_owned();
            let path = s.substring_char(tabs[1] + 1, n).to_owned();
            Ok(FileDelta { change, path, from })
        },
        _ => {
            if tabs.len() != 1 {
                return Err(ParseErrorKind::WrongTokenCount);
            }
            let path = s.substring_char(tabs[0] + 1, n).to_owned();
            Ok(FileDelta { change, path, from: String::new() })
        },
    }
}

/// Reads a log one line at a time.
pub struct LogParser {
    state: ParseState,
    current: ParsedCommit,
}

impl View for LogParser {
    type V = ParserView;

    closed spec fn view(&self) -> ParserView {
        ParserView { state: self.state, current: self.current@ }
    }
}

impl LogParser {
    /// A parser that has read nothing yet.
    pub fn new() -> (p: LogParser)
        ensures
            p@ == start(),
    {
        LogParser { state: ParseState::Hash, current: ParsedCommit::default() }
    }

    /// What the next line should hold.
    pub fn state(&self) -> (s: ParseState)
        ensures
            s == self@.state,
    {
        self.state
    }

    /// Takes the next line of the log, without its line ending. Returns the
    /// commit that the line completes, if it completes one. A line that
    /// cannot be read leaves the parser as it was.
    pub fn feed(&mut self, line: &str) -> (r: Result<Option<ParsedCommit>, ParseErrorKind>)
        ensures
            match step(old(self)@, line@) {
                Ok(s) => r is Ok && emitted_view(r->Ok_0) == s.emitted && final(self)@ == s.next,
                Err(e) => r == Err::<Option<ParsedCommit>, ParseErrorKind>(e) && final(self)@ == old(
                    self,
                )@,
            },
    {
        if line.is_empty() {
            return Ok(None);
        }
        match self.state {
            ParseState::Hash => {
                match SHA1::parse(line) {
                    Ok(id) => {
                        self.current = ParsedCommit {
                            id,
                            when: Timestamp::new(0, 0),
                            deltas: Vec::new(),
                        };
                        self.state = ParseState::Timestamp;
                        assert(self.current@.deltas =~= Seq::empty());
                        Ok(None)
                    },
                    Err(e) => Err(ParseErrorKind::BadHash(e)),
                }
            },
            ParseState::Timestamp => {
                proof {
                    if is_hash_text(line@) {
                        lemma_hash_text_parses(line@);
                    }
                }
                if SHA1::parse(line).is_ok() {
                    return Err(ParseErrorKind::BadTimestamp);
                }
                match read_integer(line) {
                    Some(sec) => {
                        self.current.when = Timestamp::new(sec, 0);
                        self.state = ParseState::Changes;
                        Ok(None)
                    },
                    None => Err(ParseErrorKind::BadTimestamp),
                }
            },
            ParseState::Changes => {
                match SHA1::parse(line) {
                    Ok(id) => {
                        let mut done = ParsedCommit {
                            id,
                            when: Timestamp::new(0, 0),
                            deltas: Vec::new(),
                        };
                        assert(done@.deltas =~= Seq::empty());
                        std::mem::swap(&mut self.current, &mut done);
                        self.state = ParseState::Timestamp;
                        Ok(Some(done))
                    },
                    Err(_) => {
                        match parse_delta(line) {
                            Ok(d) => {
                                self.current.deltas.push(d);
                                assert(self.current@.deltas =~= old(self).current@.deltas.push(
                                    d@,
                                ));
                                Ok(None)
                            },
                            Err(e) => Err(e),
                        }
                    },
                }
            },
        }
    }

    /// Ends the log. Returns the commit that was being read, if its hash and
    /// its time are known.
    pub fn finish(self) -> (r: Option<ParsedCommit>)
        ensures
            emitted_view(r) == flush(self@),
    {
        match self.state {
            ParseState::Changes => Some(self.current),
            _ => None,
        }
    }
}

/// Reads a whole log, given as its lines without their line endings, into
/// its commits, the newest first as Git lists them.
pub fn get_history(lines: &Vec<String>) -> (r: Result<Vec<ParsedCommit>, ParseError>)
    ensures
        match r {
            Ok(commits) => parsed_log(line_views(lines@)) == Ok::<Seq<CommitView>, ParseError>(
                commit_views(commits@),
            ),
            Err(e) => parsed_log(line_views(lines@)) == Err::<Seq<CommitView>, ParseError>(e),
        },
{
    let mut parser = LogParser::new();
    let mut commits: Vec<ParsedCommit> = Vec::new();
    let mut i: usize = 0;
    assert(line_views(lines@).take(0) =~= Seq::empty());
    assert(commit_views(commits@) =~= Seq::empty());
    while i < lines.len()
        invariant
            i <= lines.len(),
            progress(line_views(lines@).take(i as int)) matches Ok(p) && p.parser == parser@
                && p.commits == commit_views(commits@),
        decreases lines.len() - i,
    {
        let ghost all = line_views(lines@);
        let ghost before = commit_views(commits@);
        proof {
            assert(all.take(i + 1).drop_last() =~= all.take(i as int));
            assert(all.take(i + 1).last() == lines@[i as int]@);
        }
        match parser.feed(lines[i].as_str()) {
            Ok(Some(c)) => {
                commits.push(c);
                assert(commit_views(commits@) =~= before.push(c@));
            },
            Ok(None) => {},
            Err(kind) => {
                proof {
                    lemma_progress_fails(all, i + 1);
                }
                return Err(ParseError { line: i, kind });
            },
        }
        i += 1;
    }
    let ghost before = commit_views(commits@);
    assert(line_views(lines@).take(i as int) =~= line_views(lines@));
    match parser.finish() {
        Some(c) => {
            commits.push(c);
            assert(commit_views(commits@) =~= before.push(c@));
        },
        None => {},
    }
    Ok(commits)
}

/// A log fails where any of its beginnings fails.
pub proof fn lemma_progress_fails(lines: Seq<Seq<char>>, k: int)
    requires
        0 <= k <= lines.len(),
        progress(lines.take(k)) is Err,
    ensures
        progress(lines) == progress(lines.take(k)),
    decreases lines.len() - k,
{
    if k == lines.len() {
        assert(lines.take(k) =~= lines);
    } else {
        assert(lines.take(k + 1).drop_last() =~= lines.take(k));
        lemma_progress_fails(lines, k + 1);
    }
}

} // verus!
