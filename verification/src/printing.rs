//! The log that spells given commits, and the proof that reading it gives the
//! commits back.

use crate::decimal::{
    after_plus, integer_text, is_digit, is_number, lemma_integer_text, lemma_number_text,
    number_text,
};
use crate::grammar::{
    change_of, delta_of, fields, flush, fresh_commit, has_source, parsed_log, percent_of,
    progress, start, step, tab_free, tab_positions, timestamp_of, with_emitted, ParseError,
    ParseErrorKind, ParseState, ParserView, Progress,
};
use crate::hex::{hash_text, is_hash_text, is_hex_digit, HASH_BYTES};
use crate::types::{
    law_print_then_parse_hash, parsed_hash, Change, CommitView, DeltaView, SHA1ParseError,
    Timestamp,
};
use vstd::prelude::*;

verus! {

/// The code that names a change: its letter, and for a rename or a copy the
/// percentage without leading zeros.
pub open spec fn code_text(change: Change) -> Seq<char> {
    match change {
        Change::Added => seq!['A'],
        Change::Deleted => seq!['D'],
        Change::Modified => seq!['M'],
        Change::Renamed { percent_changed } => seq!['R'] + number_text(percent_changed as nat),
        Change::Copied { percent_changed } => seq!['C'] + number_text(percent_changed as nat),
    }
}

/// The line that names a change: the code, a tab, and the name; for a rename
/// or a copy the old name, a tab, and the new name.
pub open spec fn delta_line(d: DeltaView) -> Seq<char> {
    if has_source(d.change) {
        code_text(d.change) + seq!['\t'] + d.from + seq!['\t'] + d.path
    } else {
        code_text(d.change) + seq!['\t'] + d.path
    }
}

/// The lines that name a run of changes.
pub open spec fn delta_lines(deltas: Seq<DeltaView>) -> Seq<Seq<char>> {
    deltas.map_values(|d: DeltaView| delta_line(d))
}

/// The lines of a commit: its hash, its time in seconds, its changes, and a
/// blank line if `gap` says so.
pub open spec fn commit_lines(c: CommitView, gap: bool) -> Seq<Seq<char>> {
    seq![hash_text(c.id), integer_text(c.when.sec as int)] + delta_lines(c.deltas) + if gap {
        seq![Seq::<char>::empty()]
    } else {
        Seq::<Seq<char>>::empty()
    }
}

/// The log of a run of commits; `gaps[i]` says whether a blank line follows
/// the commit with index `i`.
pub open spec fn log_lines(commits: Seq<CommitView>, gaps: Seq<bool>) -> Seq<Seq<char>>
    decreases commits.len(),
{
    if commits.len() == 0 {
        Seq::empty()
    } else {
        log_lines(commits.drop_last(), gaps.drop_last()) + commit_lines(
            commits.last(),
            gaps.last(),
        )
    }
}

/// A change that a line can name: its names hold no tab, a rename or a copy
/// has a percentage of at most 100, and the other kinds have no old name.
pub open spec fn printable_delta(d: DeltaView) -> bool {
    &&& tab_free(d.path)
    &&& tab_free(d.from)
    &&& match d.change {
        Change::Renamed { percent_changed } => percent_changed <= 100,
        Change::Copied { percent_changed } => percent_changed <= 100,
        _ => d.from.len() == 0,
    }
}

/// A commit that a log can name: a hash of twenty bytes, a time in whole
/// seconds, and changes that lines can name.
pub open spec fn printable(c: CommitView) -> bool {
    &&& c.id.len() == HASH_BYTES
    &&& c.when.nsec == 0
    &&& forall|i: int| 0 <= i < c.deltas.len() ==> printable_delta(#[trigger] c.deltas[i])
}

/// Ten to the power `k`.
pub open spec fn pow10(k: nat) -> nat
    decreases k,
{
    if k == 0 {
        1
    } else {
        10 * pow10((k - 1) as nat)
    }
}

/// A number below ten to the `k` is spelt with at most `k` digits.
pub proof fn lemma_number_text_len(n: nat, k: nat)
    requires
        k >= 1,
        n < pow10(k),
    ensures
        1 <= number_text(n).len() <= k,
    decreases n,
{
    if n >= 10 {
        assert(pow10(1) == 10) by {
            reveal_with_fuel(pow10, 2);
        }
        assert(k >= 2);
        lemma_number_text_len(n / 10, (k - 1) as nat);
    }
}

/// No tab stands in a run of digits.
pub proof fn lemma_number_tab_free(s: Seq<char>)
    requires
        is_number(s),
    ensures
        tab_free(s),
{
    assert forall|i: int| 0 <= i < s.len() implies #[trigger] s[i] != '\t' by {
        assert(is_digit(s[i]));
    }
}

/// Text without a tab adds no tab position.
pub proof fn lemma_tabs_append_free(s: Seq<char>, t: Seq<char>)
    requires
        tab_free(t),
    ensures
        tab_positions(s + t) == tab_positions(s),
    decreases t.len(),
{
    if t.len() == 0 {
        assert(s + t =~= s);
    } else {
        assert((s + t).drop_last() =~= s + t.drop_last());
        assert((s + t).last() == t[t.len() - 1]);
        lemma_tabs_append_free(s, t.drop_last());
    }
}

/// A tab at the end adds its own position.
pub proof fn lemma_tabs_append_tab(s: Seq<char>)
    ensures
        tab_positions(s + seq!['\t']) == tab_positions(s).push(s.len() as int),
{
    assert((s + seq!['\t']).drop_last() =~= s);
}

/// The code of a change reads as the change.
pub proof fn lemma_code_round_trip(change: Change)
    requires
        match change {
            Change::Renamed { percent_changed } => percent_changed <= 100,
            Change::Copied { percent_changed } => percent_changed <= 100,
            _ => true,
        },
    ensures
        change_of(code_text(change)) == Ok::<Change, ParseErrorKind>(change),
        tab_free(code_text(change)),
        code_text(change).len() > 0,
{
    let code = code_text(change);
    match change {
        Change::Renamed { percent_changed } => {
            let digits = number_text(percent_changed as nat);
            lemma_number_text(percent_changed as nat);
            lemma_number_tab_free(digits);
            assert(code.subrange(1, code.len() as int) =~= digits);
            assert(after_plus(digits) == digits);
            assert(percent_of(code) == Some(percent_changed));
        },
        Change::Copied { percent_changed } => {
            let digits = number_text(percent_changed as nat);
            lemma_number_text(percent_changed as nat);
            lemma_number_tab_free(digits);
            assert(code.subrange(1, code.len() as int) =~= digits);
            assert(after_plus(digits) == digits);
            assert(percent_of(code) == Some(percent_changed));
        },
        _ => {},
    }
}

/// Two pieces without tabs, joined by a tab, are the two fields of the line.
pub proof fn lemma_two_fields(code: Seq<char>, path: Seq<char>)
    requires
        tab_free(code),
        tab_free(path),
    ensures
        fields(code + seq!['\t'] + path) == seq![code, path],
        (code + seq!['\t'] + path)[code.len() as int] == '\t',
{
    let tab = seq!['\t'];
    let line = code + tab + path;
    let c = code.len() as int;
    assert(tab_positions(line) == seq![c]) by {
        lemma_tabs_append_free(Seq::empty(), code);
        assert(Seq::<char>::empty() + code =~= code);
        assert(tab_positions(Seq::<char>::empty()) =~= Seq::<int>::empty());
        lemma_tabs_append_tab(code);
        lemma_tabs_append_free(code + tab, path);
        assert(tab_positions(code + tab) =~= seq![c]);
    }
    let f = fields(line);
    assert(f.len() == 2);
    assert(f[0] =~= code);
    assert(f[1] =~= path);
    assert(f =~= seq![code, path]);
}

/// Three pieces without tabs, joined by tabs, are the three fields of the
/// line.
pub proof fn lemma_three_fields(code: Seq<char>, from: Seq<char>, path: Seq<char>)
    requires
        tab_free(code),
        tab_free(from),
        tab_free(path),
    ensures
        fields(code + seq!['\t'] + from + seq!['\t'] + path) == seq![code, from, path],
        (code + seq!['\t'] + from + seq!['\t'] + path)[code.len() as int] == '\t',
{
    let tab = seq!['\t'];
    let line = code + tab + from + tab + path;
    let c = code.len() as int;
    let e = c + 1 + from.len();
    assert(tab_positions(code + tab) == seq![c]) by {
        lemma_tabs_append_free(Seq::empty(), code);
        assert(Seq::<char>::empty() + code =~= code);
        assert(tab_positions(Seq::<char>::empty()) =~= Seq::<int>::empty());
        lemma_tabs_append_tab(code);
        assert(tab_positions(code + tab) =~= seq![c]);
    }
    assert(tab_positions(line) == seq![c, e]) by {
        lemma_tabs_append_free(code + tab, from);
        lemma_tabs_append_tab(code + tab + from);
        lemma_tabs_append_free(code + tab + from + tab, path);
        assert((code + tab + from).len() == e);
        assert(seq![c].push(e) =~= seq![c, e]);
    }
    let f = fields(line);
    assert(f.len() == 3);
    assert(f[0] =~= code);
    assert(f[1] =~= from);
    assert(f[2] =~= path);
    assert(f =~= seq![code, from, path]);
}

/// The line of a change reads as the change, and is neither blank nor a hash.
pub proof fn lemma_delta_round_trip(d: DeltaView)
    requires
        printable_delta(d),
    ensures
        delta_of(delta_line(d)) == Ok::<DeltaView, ParseErrorKind>(d),
        delta_line(d).len() > 0,
        parsed_hash(delta_line(d)) is Err,
{
    let code = code_text(d.change);
    let line = delta_line(d);
    lemma_code_round_trip(d.change);
    if has_source(d.change) {
        lemma_three_fields(code, d.from, d.path);
    } else {
        lemma_two_fields(code, d.path);
        assert(d.from =~= Seq::empty());
    }
    assert(!is_hash_text(line)) by {
        assert(!is_hex_digit(line[code.len() as int]));
    }
}

/// The line of a commit's hash reads as the hash, and is not blank.
pub proof fn lemma_hash_line(id: Seq<u8>)
    requires
        id.len() == HASH_BYTES,
    ensures
        parsed_hash(hash_text(id)) == Ok::<Seq<u8>, SHA1ParseError>(id),
        hash_text(id).len() > 0,
{
    law_print_then_parse_hash(id);
}

/// The line of a commit's time reads as the time, and is not blank.
pub proof fn lemma_time_line(sec: i64)
    ensures
        timestamp_of(integer_text(sec as int)) == Ok::<Timestamp, ParseErrorKind>(
            Timestamp { sec, nsec: 0 },
        ),
        integer_text(sec as int).len() > 0,
{
    let text = integer_text(sec as int);
    lemma_integer_text(sec as int);
    if sec < 0 {
        assert(text[0] == '-');
        assert(!is_hex_digit(text[0]));
    } else {
        assert(pow10(20) == 100_000_000_000_000_000_000) by {
            reveal_with_fuel(pow10, 21);
        }
        lemma_number_text_len(sec as nat, 20);
    }
    assert(!is_hash_text(text));
}

/// Where the parser stands after more lines, if it can read them all.
pub open spec fn advance(p: Progress, lines: Seq<Seq<char>>) -> Option<Progress>
    decreases lines.len(),
{
    if lines.len() == 0 {
        Some(p)
    } else {
        match advance(p, lines.drop_last()) {
            None => None,
            Some(q) => match step(q.parser, lines.last()) {
                Err(_) => None,
                Ok(s) => Some(
                    Progress { parser: s.next, commits: with_emitted(q.commits, s.emitted) },
                ),
            },
        }
    }
}

/// Reading two runs of lines is reading the first and then the second.
pub proof fn lemma_advance_append(p: Progress, a: Seq<Seq<char>>, b: Seq<Seq<char>>)
    ensures
        advance(p, a + b) == match advance(p, a) {
            Some(q) => advance(q, b),
            None => None,
        },
    decreases b.len(),
{
    if b.len() == 0 {
        assert(a + b =~= a);
    } else {
        assert((a + b).drop_last() =~= a + b.drop_last());
        assert((a + b).last() == b.last());
        lemma_advance_append(p, a, b.drop_last());
    }
}

/// Reading a log from the start is advancing from the start.
pub proof fn lemma_progress_advances(lines: Seq<Seq<char>>)
    ensures
        advance(Progress { parser: start(), commits: Seq::empty() }, lines) matches Some(q)
            ==> progress(lines) == Ok::<Progress, ParseError>(q),
    decreases lines.len(),
{
    if lines.len() > 0 {
        lemma_progress_advances(lines.drop_last());
    }
}

/// The lines of printable changes add the changes to the current commit.
pub proof fn lemma_advance_deltas(p: Progress, deltas: Seq<DeltaView>)
    requires
        p.parser.state is Changes,
        forall|i: int| 0 <= i < deltas.len() ==> printable_delta(#[trigger] deltas[i]),
    ensures
        advance(p, delta_lines(deltas)) == Some(
            Progress {
                parser: ParserView {
                    state: ParseState::Changes,
                    current: CommitView {
                        deltas: p.parser.current.deltas + deltas,
                        ..p.parser.current
                    },
                },
                commits: p.commits,
            },
        ),
    decreases deltas.len(),
{
    let lines = delta_lines(deltas);
    if deltas.len() == 0 {
        assert(p.parser.current.deltas + deltas =~= p.parser.current.deltas);
    } else {
        let shorter = deltas.drop_last();
        assert(lines.drop_last() =~= delta_lines(shorter));
        assert(lines.last() == delta_line(deltas.last()));
        lemma_advance_deltas(p, shorter);
        assert(printable_delta(deltas[deltas.len() - 1]));
        lemma_delta_round_trip(deltas.last());
        assert((p.parser.current.deltas + shorter).push(deltas.last())
            =~= p.parser.current.deltas + deltas);
    }
}

/// Where the parser stands after the log of `commits`: at the changes of the
/// last commit, with the others complete.
pub open spec fn after_log(commits: Seq<CommitView>) -> Progress {
    if commits.len() == 0 {
        Progress { parser: start(), commits: Seq::empty() }
    } else {
        Progress {
            parser: ParserView { state: ParseState::Changes, current: commits.last() },
            commits: commits.drop_last(),
        }
    }
}

/// The lines of a printable commit complete the commit before it and leave
/// the parser at the changes of this one.
pub proof fn lemma_advance_commit(before: Seq<CommitView>, c: CommitView, gap: bool)
    requires
        printable(c),
    ensures
        advance(after_log(before), commit_lines(c, gap)) == Some(after_log(before.push(c))),
{
    let at_start = after_log(before);
    let head = seq![hash_text(c.id), integer_text(c.when.sec as int)];
    let tail = if gap {
        seq![Seq::<char>::empty()]
    } else {
        Seq::<Seq<char>>::empty()
    };
    lemma_hash_line(c.id);
    lemma_time_line(c.when.sec);
    // The two lines of the head.
    let one = seq![hash_text(c.id)];
    assert(one.drop_last() =~= Seq::<Seq<char>>::empty());
    assert(head.drop_last() =~= one);
    let emitted = if before.len() == 0 {
        None
    } else {
        Some(before.last())
    };
    let after_hash = Progress {
        parser: ParserView { state: ParseState::Timestamp, current: fresh_commit(c.id) },
        commits: with_emitted(at_start.commits, emitted),
    };
    assert(advance(at_start, Seq::<Seq<char>>::empty()) == Some(at_start));
    assert(advance(at_start, one) == Some(after_hash));
    let after_time = Progress {
        parser: ParserView {
            state: ParseState::Changes,
            current: CommitView { id: c.id, when: c.when, deltas: Seq::empty() },
        },
        commits: after_hash.commits,
    };
    assert(advance(at_start, head) == Some(after_time));
    // The changes.
    lemma_advance_deltas(after_time, c.deltas);
    assert(Seq::<DeltaView>::empty() + c.deltas =~= c.deltas);
    let after_changes = Progress {
        parser: ParserView { state: ParseState::Changes, current: c },
        commits: after_hash.commits,
    };
    assert(advance(after_time, delta_lines(c.deltas)) == Some(after_changes));
    // The blank line, if any.
    assert(advance(after_changes, Seq::<Seq<char>>::empty()) == Some(after_changes));
    assert(tail.len() > 0 ==> tail.drop_last() =~= Seq::<Seq<char>>::empty());
    assert(advance(after_changes, tail) == Some(after_changes));
    lemma_advance_append(at_start, head, delta_lines(c.deltas));
    lemma_advance_append(at_start, head + delta_lines(c.deltas), tail);
    assert(before.push(c).drop_last() =~= before);
    if before.len() > 0 {
        assert(before.drop_last().push(before.last()) =~= before);
    }
    assert(after_changes.commits =~= before);
    assert(after_changes == after_log(before.push(c)));
}

/// The log of printable commits leaves the parser at the last of them.
pub proof fn lemma_advance_log(commits: Seq<CommitView>, gaps: Seq<bool>)
    requires
        gaps.len() == commits.len(),
        forall|i: int| 0 <= i < commits.len() ==> printable(#[trigger] commits[i]),
    ensures
        advance(after_log(Seq::empty()), log_lines(commits, gaps)) == Some(after_log(commits)),
    decreases commits.len(),
{
    if commits.len() > 0 {
        let before = commits.drop_last();
        lemma_advance_log(before, gaps.drop_last());
        assert(printable(commits[commits.len() - 1]));
        lemma_advance_commit(before, commits.last(), gaps.last());
        lemma_advance_append(
            after_log(Seq::empty()),
            log_lines(before, gaps.drop_last()),
            commit_lines(commits.last(), gaps.last()),
        );
        assert(before.push(commits.last()) =~= commits);
    }
}

/// Reading the log of printable commits gives the commits back, field by
/// field, wherever blank lines follow a commit.
pub proof fn law_print_then_parse(commits: Seq<CommitView>, gaps: Seq<bool>)
    requires
        gaps.len() == commits.len(),
        forall|i: int| 0 <= i < commits.len() ==> printable(#[trigger] commits[i]),
    ensures
        parsed_log(log_lines(commits, gaps)) == Ok::<Seq<CommitView>, ParseError>(commits),
{
    let lines = log_lines(commits, gaps);
    lemma_advance_log(commits, gaps);
    lemma_progress_advances(lines);
    let p = after_log(commits);
    assert(progress(lines) == Ok::<Progress, ParseError>(p));
    assert(with_emitted(p.commits, flush(p.parser)) =~= commits);
}

} // verus!
