//! The parser on lines and on whole logs.

use git_historian::parsing::{
    get_history, parse_change_code, parse_delta, LogParser, ParseError, ParseErrorKind,
    ParseState, ParsedCommit,
};
use git_historian::{Change, FileDelta, SHA1ParseError, Timestamp, SHA1};

const H1: &str = "1111111111111111111111111111111111111111";
const H2: &str = "2222222222222222222222222222222222222222";
const H3: &str = "abcdefABCDEF0123456789abcdefABCDEF012345";

fn log_of(lines: &[&str]) -> Vec<String> {
    lines.iter().map(|l| l.to_string()).collect()
}

fn change(kind: Change, from: &str, path: &str) -> FileDelta {
    FileDelta { change: kind, path: path.to_string(), from: from.to_string() }
}

fn parsed(id: &str, sec: i64, deltas: Vec<FileDelta>) -> ParsedCommit {
    ParsedCommit { id: SHA1::parse(id).unwrap(), when: Timestamp { sec, nsec: 0 }, deltas }
}

fn bad(line: usize, kind: ParseErrorKind) -> Result<Vec<ParsedCommit>, ParseError> {
    Err(ParseError { line, kind })
}

/// The lines that spell a commit, with the given line for each change.
fn lines_of(c: &ParsedCommit) -> Vec<String> {
    let mut lines = vec![c.id.to_string(), c.when.sec.to_string()];
    for d in &c.deltas {
        lines.push(match d.change {
            Change::Added => format!("A\t{}", d.path),
            Change::Deleted => format!("D\t{}", d.path),
            Change::Modified => format!("M\t{}", d.path),
            Change::Renamed { percent_changed } => {
                format!("R{}\t{}\t{}", percent_changed, d.from, d.path)
            }
            Change::Copied { percent_changed } => {
                format!("C{}\t{}\t{}", percent_changed, d.from, d.path)
            }
        });
    }
    lines
}

#[test]
fn change_codes() {
    assert_eq!(parse_change_code("A"), Ok(Change::Added));
    assert_eq!(parse_change_code("D"), Ok(Change::Deleted));
    assert_eq!(parse_change_code("M"), Ok(Change::Modified));
    assert_eq!(parse_change_code("T"), Ok(Change::Modified));
    assert_eq!(parse_change_code("R100"), Ok(Change::Renamed { percent_changed: 100 }));
    assert_eq!(parse_change_code("R087"), Ok(Change::Renamed { percent_changed: 87 }));
    assert_eq!(parse_change_code("R0"), Ok(Change::Renamed { percent_changed: 0 }));
    assert_eq!(parse_change_code("C75"), Ok(Change::Copied { percent_changed: 75 }));
    assert_eq!(parse_change_code("C+5"), Ok(Change::Copied { percent_changed: 5 }));
}

#[test]
fn change_code_ignores_what_follows_a_plain_letter() {
    assert_eq!(parse_change_code("Ax"), Ok(Change::Added));
    assert_eq!(parse_change_code("M100"), Ok(Change::Modified));
    assert_eq!(parse_change_code("Déjà"), Ok(Change::Deleted));
}

#[test]
fn change_code_errors() {
    assert_eq!(parse_change_code(""), Err(ParseErrorKind::UnknownCode));
    assert_eq!(parse_change_code("X"), Err(ParseErrorKind::UnknownCode));
    assert_eq!(parse_change_code("a"), Err(ParseErrorKind::UnknownCode));
    assert_eq!(parse_change_code("r100"), Err(ParseErrorKind::UnknownCode));
    assert_eq!(parse_change_code(" M"), Err(ParseErrorKind::UnknownCode));
    assert_eq!(parse_change_code("U"), Err(ParseErrorKind::UnknownCode));
    assert_eq!(parse_change_code("R"), Err(ParseErrorKind::BadPercentage));
    assert_eq!(parse_change_code("C"), Err(ParseErrorKind::BadPercentage));
    assert_eq!(parse_change_code("R101"), Err(ParseErrorKind::BadPercentage));
    assert_eq!(parse_change_code("C256"), Err(ParseErrorKind::BadPercentage));
    assert_eq!(parse_change_code("R-1"), Err(ParseErrorKind::BadPercentage));
    assert_eq!(parse_change_code("R1x"), Err(ParseErrorKind::BadPercentage));
    assert_eq!(parse_change_code("R 1"), Err(ParseErrorKind::BadPercentage));
    assert_eq!(parse_change_code("C99999999999999999999999"), Err(ParseErrorKind::BadPercentage));
}

#[test]
fn delta_lines() {
    assert_eq!(parse_delta("A\tnew.txt"), Ok(change(Change::Added, "", "new.txt")));
    assert_eq!(parse_delta("D\tgone.txt"), Ok(change(Change::Deleted, "", "gone.txt")));
    assert_eq!(parse_delta("M\tsrc/lib.rs"), Ok(change(Change::Modified, "", "src/lib.rs")));
    assert_eq!(parse_delta("T\tlink"), Ok(change(Change::Modified, "", "link")));
    assert_eq!(
        parse_delta("R100\told/name.rs\tnew/name.rs"),
        Ok(change(Change::Renamed { percent_changed: 100 }, "old/name.rs", "new/name.rs"))
    );
    assert_eq!(
        parse_delta("C080\torig.txt\tcopy.txt"),
        Ok(change(Change::Copied { percent_changed: 80 }, "orig.txt", "copy.txt"))
    );
}

#[test]
fn delta_names_may_hold_anything_but_a_tab() {
    assert_eq!(
        parse_delta("M\tdir with space/naïve file.txt"),
        Ok(change(Change::Modified, "", "dir with space/naïve file.txt"))
    );
    assert_eq!(parse_delta("A\t"), Ok(change(Change::Added, "", "")));
    assert_eq!(
        parse_delta("R50\t\tб"),
        Ok(change(Change::Renamed { percent_changed: 50 }, "", "б"))
    );
    assert_eq!(parse_delta("M\t M"), Ok(change(Change::Modified, "", " M")));
}

#[test]
fn delta_errors() {
    assert_eq!(parse_delta("M"), Err(ParseErrorKind::WrongTokenCount));
    assert_eq!(parse_delta("nonsense"), Err(ParseErrorKind::WrongTokenCount));
    assert_eq!(parse_delta("M foo"), Err(ParseErrorKind::WrongTokenCount));
    assert_eq!(parse_delta("M\ta\tb"), Err(ParseErrorKind::WrongTokenCount));
    assert_eq!(parse_delta("A\ta\tb\tc"), Err(ParseErrorKind::WrongTokenCount));
    assert_eq!(parse_delta("R100\tonly"), Err(ParseErrorKind::WrongTokenCount));
    assert_eq!(parse_delta("C100\ta\tb\tc"), Err(ParseErrorKind::WrongTokenCount));
    assert_eq!(parse_delta("\tfoo"), Err(ParseErrorKind::UnknownCode));
    assert_eq!(parse_delta("X\tfoo"), Err(ParseErrorKind::UnknownCode));
    assert_eq!(parse_delta("R\ta\tb"), Err(ParseErrorKind::BadPercentage));
    assert_eq!(parse_delta("R101\ta\tb"), Err(ParseErrorKind::BadPercentage));
}

#[test]
fn delta_reports_the_code_before_the_count() {
    // The code is read before the names are counted.
    assert_eq!(parse_delta("X\ta\tb\tc"), Err(ParseErrorKind::UnknownCode));
    assert_eq!(parse_delta("R200\tonly"), Err(ParseErrorKind::BadPercentage));
    // But a line without any tab is no change at all.
    assert_eq!(parse_delta("X"), Err(ParseErrorKind::WrongTokenCount));
    assert_eq!(parse_delta(""), Err(ParseErrorKind::WrongTokenCount));
}

#[test]
fn whole_log() {
    let log = log_of(&[
        H1,
        "1431015349",
        "M\tsrc/history.rs",
        "A\tsrc/types.rs",
        "",
        H2,
        "1431000000",
        "R090\tsrc/old.rs\tsrc/history.rs",
        "",
        H3,
        "-5",
    ]);
    assert_eq!(
        get_history(&log),
        Ok(vec![
            parsed(
                H1,
                1431015349,
                vec![
                    change(Change::Modified, "", "src/history.rs"),
                    change(Change::Added, "", "src/types.rs"),
                ]
            ),
            parsed(
                H2,
                1431000000,
                vec![change(Change::Renamed { percent_changed: 90 }, "src/old.rs", "src/history.rs")]
            ),
            parsed(H3, -5, vec![]),
        ])
    );
}

#[test]
fn empty_log_has_no_commits() {
    assert_eq!(get_history(&Vec::new()), Ok(vec![]));
    assert_eq!(get_history(&log_of(&["", "", ""])), Ok(vec![]));
}

#[test]
fn blank_lines_mean_nothing() {
    let dense = log_of(&[H1, "10", "M\ta", H2, "9", "D\tb"]);
    let sparse = log_of(&["", H1, "", "", "10", "", "M\ta", "", H2, "", "9", "", "D\tb", "", ""]);
    let commits = get_history(&dense).unwrap();
    assert_eq!(commits.len(), 2);
    assert_eq!(get_history(&sparse), Ok(commits));
}

#[test]
fn last_commit_is_flushed_at_the_end() {
    assert_eq!(get_history(&log_of(&[H1, "7"])), Ok(vec![parsed(H1, 7, vec![])]));
    assert_eq!(
        get_history(&log_of(&[H1, "7", "M\ta"])),
        Ok(vec![parsed(H1, 7, vec![change(Change::Modified, "", "a")])])
    );
}

#[test]
fn commit_without_its_time_is_not_flushed() {
    assert_eq!(get_history(&log_of(&[H1])), Ok(vec![]));
    assert_eq!(get_history(&log_of(&[H1, "7", "M\ta", H2])), Ok(vec![parsed(
        H1,
        7,
        vec![change(Change::Modified, "", "a")]
    )]));
}

#[test]
fn first_line_must_be_a_hash() {
    assert_eq!(
        get_history(&log_of(&["M\ta"])),
        bad(0, ParseErrorKind::BadHash(SHA1ParseError::IncorrectLength))
    );
    assert_eq!(
        get_history(&log_of(&["", "1431015349"])),
        bad(1, ParseErrorKind::BadHash(SHA1ParseError::IncorrectLength))
    );
    assert_eq!(
        get_history(&log_of(&["zzzzzzzzzzzzzzzzzzzzzzzzzzzzzzzzzzzzzzzz"])),
        bad(0, ParseErrorKind::BadHash(SHA1ParseError::InvalidHexadecimal))
    );
}

#[test]
fn time_must_be_an_integer() {
    assert_eq!(get_history(&log_of(&[H1, "soon"])), bad(1, ParseErrorKind::BadTimestamp));
    assert_eq!(get_history(&log_of(&[H1, "1.5"])), bad(1, ParseErrorKind::BadTimestamp));
    assert_eq!(get_history(&log_of(&[H1, "M\ta"])), bad(1, ParseErrorKind::BadTimestamp));
    assert_eq!(
        get_history(&log_of(&[H1, "9223372036854775808"])),
        bad(1, ParseErrorKind::BadTimestamp)
    );
    assert_eq!(get_history(&log_of(&[H1, "", " 12"])), bad(2, ParseErrorKind::BadTimestamp));
}

#[test]
fn time_must_not_be_a_hash() {
    assert_eq!(get_history(&log_of(&[H1, H2])), bad(1, ParseErrorKind::BadTimestamp));
    // Forty digits that spell a small number are a hash all the same.
    let zeros = "0000000000000000000000000000000000000001";
    assert_eq!(get_history(&log_of(&[H1, zeros])), bad(1, ParseErrorKind::BadTimestamp));
    // One digit fewer, and it is a number.
    assert_eq!(
        get_history(&log_of(&[H1, &zeros[1..]])),
        Ok(vec![parsed(H1, 1, vec![])])
    );
}

#[test]
fn bad_change_fails_the_log_at_its_line() {
    assert_eq!(
        get_history(&log_of(&[H1, "1", "M\ta", "Q\tb", "M\tc"])),
        bad(3, ParseErrorKind::UnknownCode)
    );
    assert_eq!(
        get_history(&log_of(&[H1, "1", "", "R100\tb"])),
        bad(3, ParseErrorKind::WrongTokenCount)
    );
    assert_eq!(
        get_history(&log_of(&[H1, "1", "M\ta", H2, "0", "C101\ta\tb"])),
        bad(5, ParseErrorKind::BadPercentage)
    );
    // Thirty-nine digits are no hash, and no change either.
    assert_eq!(
        get_history(&log_of(&[H1, "1", &H2[1..]])),
        bad(2, ParseErrorKind::WrongTokenCount)
    );
}

#[test]
fn only_the_first_bad_line_is_named() {
    assert_eq!(
        get_history(&log_of(&[H1, "x", "y", "z"])),
        bad(1, ParseErrorKind::BadTimestamp)
    );
}

#[test]
fn parser_takes_one_line_at_a_time() {
    let mut p = LogParser::new();
    assert_eq!(p.state(), ParseState::Hash);
    assert_eq!(p.feed(""), Ok(None));
    assert_eq!(p.state(), ParseState::Hash);
    assert_eq!(p.feed(H1), Ok(None));
    assert_eq!(p.state(), ParseState::Timestamp);
    assert_eq!(p.feed(""), Ok(None));
    assert_eq!(p.state(), ParseState::Timestamp);
    assert_eq!(p.feed("42"), Ok(None));
    assert_eq!(p.state(), ParseState::Changes);
    assert_eq!(p.feed("M\ta"), Ok(None));
    assert_eq!(p.feed(""), Ok(None));
    assert_eq!(p.feed("D\tb"), Ok(None));
    assert_eq!(p.state(), ParseState::Changes);
    assert_eq!(
        p.feed(H2),
        Ok(Some(parsed(
            H1,
            42,
            vec![change(Change::Modified, "", "a"), change(Change::Deleted, "", "b")]
        )))
    );
    assert_eq!(p.state(), ParseState::Timestamp);
    assert_eq!(p.feed("41"), Ok(None));
    assert_eq!(p.finish(), Some(parsed(H2, 41, vec![])));
}

#[test]
fn parser_is_unchanged_by_a_bad_line() {
    let mut p = LogParser::new();
    assert_eq!(p.feed("no hash"), Err(ParseErrorKind::BadHash(SHA1ParseError::IncorrectLength)));
    assert_eq!(p.state(), ParseState::Hash);
    assert_eq!(p.feed(H1), Ok(None));
    assert_eq!(p.feed("no time"), Err(ParseErrorKind::BadTimestamp));
    assert_eq!(p.state(), ParseState::Timestamp);
    assert_eq!(p.feed("3"), Ok(None));
    assert_eq!(p.feed("M\ta"), Ok(None));
    assert_eq!(p.feed("no change"), Err(ParseErrorKind::WrongTokenCount));
    assert_eq!(p.state(), ParseState::Changes);
    assert_eq!(p.finish(), Some(parsed(H1, 3, vec![change(Change::Modified, "", "a")])));
}

#[test]
fn parser_that_read_nothing_has_nothing_to_flush() {
    assert_eq!(LogParser::new().finish(), None);
    let mut p = LogParser::new();
    assert_eq!(p.feed(H1), Ok(None));
    assert_eq!(p.finish(), None);
}

#[test]
fn default_commit() {
    let c = ParsedCommit::default();
    assert_eq!(c.id, SHA1::default());
    assert_eq!(c.when, Timestamp { sec: 0, nsec: 0 });
    assert!(c.deltas.is_empty());
}

#[test]
fn printing_then_parsing_gives_the_commits_back() {
    let commits = vec![
        parsed(
            H3,
            1_700_000_000,
            vec![
                change(Change::Modified, "", "a b/c.txt"),
                change(Change::Renamed { percent_changed: 100 }, "old", "new"),
                change(Change::Copied { percent_changed: 0 }, "", "copy of nothing"),
                change(Change::Added, "", ""),
            ],
        ),
        parsed(H1, 0, vec![]),
        parsed(H2, -1, vec![change(Change::Deleted, "", "ünïcödé")]),
        parsed(H1, i64::MAX, vec![change(Change::Copied { percent_changed: 7 }, "x", "y")]),
        parsed(H2, i64::MIN, vec![change(Change::Renamed { percent_changed: 55 }, "M", "D")]),
    ];
    // Without blank lines, with one after each commit, and with one after
    // every second commit.
    for gaps in [0usize, 1, 2] {
        let mut lines = Vec::new();
        for (i, c) in commits.iter().enumerate() {
            lines.extend(lines_of(c));
            if gaps != 0 && i % gaps == 0 {
                lines.push(String::new());
            }
        }
        assert_eq!(get_history(&lines), Ok(commits.clone()));
    }
}
