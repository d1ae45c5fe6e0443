//! The builder on small hand-made streams of commits.

use std::cell::Cell;
use std::rc::Rc;

use git_historian::history::{gather_history, HistoryState};
use git_historian::parsing::{get_history, ParsedCommit};
use git_historian::{Change, FileDelta, HistoryTree, PathSet, Timestamp, SHA1};

fn sha(n: u8) -> SHA1 {
    SHA1::from_bytes([n; 20])
}

/// The commit number `n`; a larger number is a newer commit.
fn commit(n: u8, deltas: Vec<FileDelta>) -> ParsedCommit {
    ParsedCommit { id: sha(n), when: Timestamp::new(1_000 * n as i64, 0), deltas }
}

fn delta(change: Change, from: &str, path: &str) -> FileDelta {
    FileDelta { change, path: path.to_string(), from: from.to_string() }
}

fn modified(path: &str) -> FileDelta {
    delta(Change::Modified, "", path)
}

fn added(path: &str) -> FileDelta {
    delta(Change::Added, "", path)
}

fn deleted(path: &str) -> FileDelta {
    delta(Change::Deleted, "", path)
}

fn renamed(percent: u8, from: &str, path: &str) -> FileDelta {
    delta(Change::Renamed { percent_changed: percent }, from, path)
}

fn copied(percent: u8, from: &str, path: &str) -> FileDelta {
    delta(Change::Copied { percent_changed: percent }, from, path)
}

fn paths(names: &[&str]) -> PathSet {
    let mut set = PathSet::new();
    for n in names {
        set.insert(n.to_string());
    }
    set
}

/// The number of the commit behind a node.
fn number(c: &ParsedCommit) -> u8 {
    c.id.as_bytes()[0]
}

fn build(names: &[&str], commits: &[ParsedCommit]) -> HistoryTree<u8> {
    gather_history(&paths(names), number, |_: &ParsedCommit| true, &commits.to_vec())
}

/// The numbers of the commits along the chain of `path`, the newest first.
fn chain_of(tree: &HistoryTree<u8>, path: &str) -> Vec<Option<u8>> {
    tree.chain(path).iter().map(|&n| tree.node(n).data.as_ref().map(|d| **d)).collect()
}

#[test]
fn add_then_modify() {
    let tree =
        build(&["foo.txt"], &[commit(2, vec![modified("foo.txt")]), commit(1, vec![added("foo.txt")])]);
    let head = tree.get("foo.txt").unwrap();
    assert_eq!(tree.node(head).data.as_deref(), Some(&2));
    let older = tree.node(head).previous.unwrap();
    assert_eq!(tree.node(older).data.as_deref(), Some(&1));
    assert_eq!(tree.node(older).previous, None);
    assert_eq!(tree.len(), 2);
}

#[test]
fn rename_followed_through() {
    let tree = build(
        &["b.txt"],
        &[
            commit(3, vec![modified("b.txt")]),
            commit(2, vec![renamed(100, "a.txt", "b.txt")]),
            commit(1, vec![added("a.txt")]),
        ],
    );
    assert_eq!(chain_of(&tree, "b.txt"), vec![Some(3), Some(2), Some(1)]);
    assert_eq!(tree.chain("b.txt").len(), 3);
    assert!(tree.contains_key("b.txt"));
    assert!(!tree.contains_key("a.txt"));
    assert_eq!(tree.get("a.txt"), None);
    assert_eq!(tree.paths(), &vec!["b.txt".to_string()]);
}

#[test]
fn copy_creates_a_fork() {
    let tree = build(
        &["copy.txt", "orig.txt"],
        &[
            commit(3, vec![modified("copy.txt")]),
            commit(2, vec![copied(80, "orig.txt", "copy.txt")]),
            commit(1, vec![modified("orig.txt")]),
        ],
    );
    assert_eq!(chain_of(&tree, "copy.txt"), vec![Some(3), Some(2), Some(1)]);
    assert_eq!(chain_of(&tree, "orig.txt"), vec![Some(1)]);
    // Both chains end in the same node, not in two nodes of one commit.
    assert_eq!(tree.chain("copy.txt")[2], tree.chain("orig.txt")[0]);
    assert_eq!(tree.len(), 3);
}

#[test]
fn copy_shares_the_node_below_a_newer_change() {
    let tree = build(
        &["copy.txt", "orig.txt"],
        &[
            commit(4, vec![modified("orig.txt")]),
            commit(3, vec![modified("copy.txt")]),
            commit(2, vec![copied(80, "orig.txt", "copy.txt")]),
            commit(1, vec![modified("orig.txt")]),
        ],
    );
    assert_eq!(chain_of(&tree, "copy.txt"), vec![Some(3), Some(2), Some(1)]);
    assert_eq!(chain_of(&tree, "orig.txt"), vec![Some(4), Some(1)]);
    assert_eq!(tree.chain("copy.txt")[2], tree.chain("orig.txt")[1]);
    assert_eq!(tree.len(), 4);
}

#[test]
fn delete_terminates_chain() {
    let tree = build(&["x"], &[commit(2, vec![modified("x")]), commit(1, vec![deleted("x")])]);
    let head = tree.get("x").unwrap();
    assert_eq!(tree.node(head).data.as_deref(), Some(&2));
    // The deletion makes the last node of the chain.
    assert_eq!(chain_of(&tree, "x"), vec![Some(2), Some(1)]);
    let last = *tree.chain("x").last().unwrap();
    assert_eq!(tree.node(last).previous, None);
    assert_eq!(tree.len(), 2);
}

#[test]
fn delete_leaves_nothing_waiting() {
    let tree = build(
        &["x"],
        &[
            commit(3, vec![modified("x")]),
            commit(2, vec![deleted("x")]),
            commit(1, vec![modified("x")]),
        ],
    );
    assert_eq!(chain_of(&tree, "x"), vec![Some(3), Some(2)]);
    assert_eq!(tree.len(), 2);
}

#[test]
fn add_leaves_nothing_waiting() {
    let tree = build(
        &["x"],
        &[
            commit(3, vec![modified("x")]),
            commit(2, vec![added("x")]),
            commit(1, vec![modified("x")]),
        ],
    );
    assert_eq!(chain_of(&tree, "x"), vec![Some(3), Some(2)]);
    assert_eq!(tree.len(), 2);
}

#[test]
fn filter_zeroes_data_but_keeps_shape() {
    let commits = vec![
        commit(3, vec![modified("b.txt")]),
        commit(2, vec![renamed(100, "a.txt", "b.txt")]),
        commit(1, vec![added("a.txt")]),
    ];
    let kept = build(&["b.txt"], &commits);
    let dropped = gather_history(&paths(&["b.txt"]), number, |_: &ParsedCommit| false, &commits);
    assert_eq!(dropped.len(), 3);
    assert_eq!(chain_of(&dropped, "b.txt"), vec![None, None, None]);
    assert_eq!(dropped.chain("b.txt"), kept.chain("b.txt"));
    for n in 0..3 {
        assert!(dropped.node(n).data.is_none());
        assert_eq!(dropped.node(n).previous, kept.node(n).previous);
    }
    assert_eq!(dropped.paths(), kept.paths());
}

#[test]
fn filter_may_turn_down_some_commits() {
    let commits = vec![
        commit(4, vec![modified("f")]),
        commit(3, vec![modified("f")]),
        commit(2, vec![modified("f")]),
        commit(1, vec![added("f")]),
    ];
    let even = gather_history(&paths(&["f"]), number, |c: &ParsedCommit| number(c) % 2 == 0, &commits);
    assert_eq!(chain_of(&even, "f"), vec![Some(4), None, Some(2), None]);
}

#[test]
fn untracked_path_ignored() {
    let tree = build(&["foo.txt"], &[commit(1, vec![modified("other.txt")])]);
    assert!(tree.is_empty());
    assert_eq!(tree.len(), 0);
    assert_eq!(tree.get("foo.txt"), None);
    assert_eq!(tree.get("other.txt"), None);
    assert!(tree.paths().is_empty());
    assert!(tree.chain("foo.txt").is_empty());
}

#[test]
fn no_commits_give_an_empty_tree() {
    assert!(build(&["foo.txt"], &[]).is_empty());
    assert!(build(&[], &[commit(1, vec![modified("a")])]).is_empty());
    assert!(HistoryTree::<u8>::new().is_empty());
}

#[test]
fn only_requested_names_get_a_head() {
    let tree = build(
        &["new"],
        &[
            commit(3, vec![modified("new"), modified("other")]),
            commit(2, vec![renamed(90, "old", "new")]),
            commit(1, vec![modified("old"), modified("other")]),
        ],
    );
    assert_eq!(tree.paths(), &vec!["new".to_string()]);
    assert!(!tree.contains_key("old"));
    assert!(!tree.contains_key("other"));
    assert_eq!(chain_of(&tree, "new"), vec![Some(3), Some(2), Some(1)]);
    assert_eq!(tree.len(), 3);
}

#[test]
fn requested_name_without_a_change_has_no_head() {
    let tree = build(&["a", "b"], &[commit(1, vec![modified("a")])]);
    assert!(tree.contains_key("a"));
    assert!(!tree.contains_key("b"));
    assert_eq!(tree.paths(), &vec!["a".to_string()]);
}

#[test]
fn name_that_is_only_deleted_gets_the_node_of_the_deletion() {
    let tree = build(&["gone"], &[commit(1, vec![deleted("gone")])]);
    assert_eq!(chain_of(&tree, "gone"), vec![Some(1)]);
    assert_eq!(tree.len(), 1);
}

#[test]
fn rename_is_not_followed_before_it_is_seen() {
    // The change to the old name is newer than the rename: it is a change
    // to another file that had this name later.
    let tree = build(
        &["new"],
        &[commit(2, vec![modified("old")]), commit(1, vec![renamed(100, "old", "new")])],
    );
    assert_eq!(chain_of(&tree, "new"), vec![Some(1)]);
    assert_eq!(tree.len(), 1);
}

#[test]
fn two_renames_to_one_name_in_one_commit() {
    let tree = build(
        &["c"],
        &[
            commit(3, vec![modified("c")]),
            commit(2, vec![renamed(60, "a", "c"), copied(50, "b", "c")]),
            commit(1, vec![modified("a"), modified("b")]),
        ],
    );
    // The first of the two takes the waiting node; the second finds the name
    // no longer watched.
    assert_eq!(chain_of(&tree, "c"), vec![Some(3), Some(2), Some(1)]);
    assert_eq!(tree.len(), 3);
    let tail = *tree.chain("c").last().unwrap();
    assert_eq!(tree.node(tail).previous, None);
}

#[test]
fn two_copies_of_one_file_share_its_older_history() {
    let tree = build(
        &["x", "y"],
        &[
            commit(2, vec![copied(100, "src", "x"), copied(100, "src", "y")]),
            commit(1, vec![modified("src")]),
        ],
    );
    assert_eq!(tree.len(), 3);
    assert_eq!(chain_of(&tree, "x"), vec![Some(2), Some(1)]);
    assert_eq!(chain_of(&tree, "y"), vec![Some(2), Some(1)]);
    // Two nodes for the two copies, one node below both.
    assert_ne!(tree.get("x"), tree.get("y"));
    assert_eq!(tree.chain("x")[1], tree.chain("y")[1]);
}

#[test]
fn head_stays_when_the_name_becomes_a_source() {
    let tree = build(
        &["a", "b"],
        &[commit(2, vec![modified("a"), renamed(100, "a", "b")]), commit(1, vec![added("a")])],
    );
    let head_a = tree.get("a").unwrap();
    let head_b = tree.get("b").unwrap();
    assert_eq!((head_a, head_b), (0, 1));
    // Both wait for `a`, and the addition is the older change of both.
    assert_eq!(tree.node(head_a).previous, Some(2));
    assert_eq!(tree.node(head_b).previous, Some(2));
    assert_eq!(tree.node(2).previous, None);
}

#[test]
fn order_within_a_commit_decides() {
    // `a` to `b` first, then `b` to `c`: when `b` is renamed to `c`, nothing
    // waits for `c`, and `b` was asked for.
    let first = build(&["b", "c"], &[commit(1, vec![renamed(100, "a", "b"), renamed(100, "b", "c")])]);
    assert_eq!(first.len(), 2);
    assert_eq!(first.paths(), &vec!["b".to_string(), "c".to_string()]);
    assert_eq!(first.node(first.get("b").unwrap()).previous, None);
    // The other way round, the node of `c` waits for `b` and is linked to
    // the node that the rename to `b` makes.
    let second = build(&["b", "c"], &[commit(1, vec![renamed(100, "b", "c"), renamed(100, "a", "b")])]);
    assert_eq!(second.len(), 2);
    assert_eq!(second.paths(), &vec!["c".to_string(), "b".to_string()]);
    assert_eq!(second.node(second.get("c").unwrap()).previous, second.get("b"));
}

#[test]
fn change_listed_twice_in_one_commit_makes_two_nodes() {
    let tree = build(&["a"], &[commit(1, vec![modified("a"), modified("a")])]);
    assert_eq!(tree.len(), 2);
    assert_eq!(chain_of(&tree, "a"), vec![Some(1), Some(1)]);
}

#[test]
fn nodes_are_numbered_as_they_are_made() {
    let tree = build(
        &["a", "b"],
        &[
            commit(3, vec![modified("b"), modified("a")]),
            commit(2, vec![modified("a")]),
            commit(1, vec![modified("b")]),
        ],
    );
    assert_eq!(tree.get("b"), Some(0));
    assert_eq!(tree.get("a"), Some(1));
    assert_eq!(tree.chain("a"), vec![1, 2]);
    assert_eq!(tree.chain("b"), vec![0, 3]);
    assert_eq!(tree.paths(), &vec!["b".to_string(), "a".to_string()]);
    assert!(tree.get_node(3).is_some());
    assert!(tree.get_node(4).is_none());
}

#[test]
fn visitor_runs_once_for_a_commit_with_nodes() {
    let visits = Cell::new(0u32);
    let asked = Cell::new(0u32);
    let commits = vec![
        commit(3, vec![modified("a"), modified("b"), modified("elsewhere")]),
        commit(2, vec![modified("elsewhere")]),
        commit(1, vec![modified("b")]),
    ];
    let tree = gather_history(
        &paths(&["a", "b"]),
        |c: &ParsedCommit| {
            visits.set(visits.get() + 1);
            number(c)
        },
        |_: &ParsedCommit| {
            asked.set(asked.get() + 1);
            true
        },
        &commits,
    );
    assert_eq!(tree.len(), 3);
    // Commit 3 makes two nodes and is visited once; commit 2 makes none and
    // is not visited.
    assert_eq!(visits.get(), 2);
    assert_eq!(asked.get(), 2);
}

#[test]
fn nodes_of_one_commit_share_their_data() {
    let commits = vec![commit(1, vec![modified("a"), modified("b")])];
    let tree = gather_history(
        &paths(&["a", "b"]),
        |c: &ParsedCommit| c.id.to_string(),
        |_: &ParsedCommit| true,
        &commits,
    );
    let a = tree.node(tree.get("a").unwrap()).data.as_ref().unwrap();
    let b = tree.node(tree.get("b").unwrap()).data.as_ref().unwrap();
    assert_eq!(**a, "01".repeat(20));
    assert!(Rc::ptr_eq(a, b));
    assert_eq!(Rc::strong_count(a), 2);
}

#[test]
fn builder_takes_commits_one_by_one() {
    let set = paths(&["b.txt"]);
    let mut state = HistoryState::new(&set, number, |_: &ParsedCommit| true);
    state.append_commit(&commit(3, vec![modified("b.txt")]));
    state.append_commit(&commit(2, vec![renamed(100, "a.txt", "b.txt")]));
    state.append_commit(&commit(1, vec![added("a.txt")]));
    let tree = state.into_tree();
    assert_eq!(chain_of(&tree, "b.txt"), vec![Some(3), Some(2), Some(1)]);
}

#[test]
fn builder_before_the_first_commit_has_an_empty_tree() {
    let set = paths(&["a"]);
    let state = HistoryState::new(&set, number, |_: &ParsedCommit| true);
    assert!(state.into_tree().is_empty());
}

#[test]
fn parsed_log_feeds_the_builder() {
    let lines: Vec<String> = [
        "3333333333333333333333333333333333333333",
        "300",
        "M\tb.txt",
        "",
        "2222222222222222222222222222222222222222",
        "200",
        "R100\ta.txt\tb.txt",
        "M\tunrelated",
        "",
        "1111111111111111111111111111111111111111",
        "100",
        "A\ta.txt",
    ]
    .iter()
    .map(|l| l.to_string())
    .collect();
    let commits = get_history(&lines).unwrap();
    let tree = gather_history(
        &paths(&["b.txt"]),
        |c: &ParsedCommit| c.when.sec,
        |_: &ParsedCommit| true,
        &commits,
    );
    let times: Vec<i64> =
        tree.chain("b.txt").iter().map(|&n| **tree.node(n).data.as_ref().unwrap()).collect();
    assert_eq!(times, vec![300, 200, 100]);
}
