//! What holds of every history, tried on many made-up streams of commits.

use std::cell::RefCell;
use std::collections::{HashMap, HashSet};
use std::rc::Rc;

use git_historian::history::gather_history;
use git_historian::parsing::ParsedCommit;
use git_historian::{Change, FileDelta, HistoryTree, PathSet, Timestamp, SHA1};

const NAMES: [&str; 5] = ["a", "b", "c", "d", "e"];

/// A small generator of numbers that gives the same ones on every run.
struct Dice(u64);

impl Dice {
    fn roll(&mut self, sides: u64) -> u64 {
        self.0 = self.0.wrapping_mul(6364136223846793005).wrapping_add(1442695040888963407);
        (self.0 >> 33) % sides
    }

    fn name(&mut self) -> String {
        NAMES[self.roll(NAMES.len() as u64) as usize].to_string()
    }
}

/// A stream of `len` commits, the newest first; the commit with index `i`
/// has the number `len - i` in every byte of its hash and as its time.
fn stream(seed: u64, len: usize) -> Vec<ParsedCommit> {
    let mut dice = Dice(seed);
    (0..len)
        .map(|i| {
            let deltas = (0..dice.roll(4))
                .map(|_| {
                    let path = dice.name();
                    let (change, from) = match dice.roll(6) {
                        0 => (Change::Added, String::new()),
                        1 => (Change::Deleted, String::new()),
                        2 | 3 => (Change::Modified, String::new()),
                        4 => (Change::Renamed { percent_changed: 90 }, dice.name()),
                        _ => (Change::Copied { percent_changed: 50 }, dice.name()),
                    };
                    FileDelta { change, path, from }
                })
                .collect();
            let number = (len - i) as u8;
            ParsedCommit {
                id: SHA1::from_bytes([number; 20]),
                when: Timestamp::new(number as i64, 0),
                deltas,
            }
        })
        .collect()
}

fn requested(seed: u64) -> Vec<&'static str> {
    let mut dice = Dice(seed ^ 0x5eed);
    NAMES.iter().copied().filter(|_| dice.roll(2) == 0).collect()
}

fn set_of(names: &[&str]) -> PathSet {
    PathSet::from_paths(&names.iter().map(|n| n.to_string()).collect())
}

fn time_of(c: &ParsedCommit) -> i64 {
    c.when.sec
}

fn keep_all(_: &ParsedCommit) -> bool {
    true
}

fn built(names: &[&str], commits: &Vec<ParsedCommit>) -> HistoryTree<i64> {
    gather_history(&set_of(names), time_of, keep_all, commits)
}

fn links<T>(tree: &HistoryTree<T>) -> Vec<Option<usize>> {
    (0..tree.len()).map(|n| tree.node(n).previous).collect()
}

fn heads<T>(tree: &HistoryTree<T>) -> Vec<(String, usize)> {
    tree.paths().iter().map(|p| (p.clone(), tree.get(p).unwrap())).collect()
}

fn data<T: Clone>(tree: &HistoryTree<T>) -> Vec<Option<T>> {
    (0..tree.len()).map(|n| tree.node(n).data.as_ref().map(|d| (**d).clone())).collect()
}

/// A node of the plain builder below.
struct Plain {
    time: i64,
    previous: Option<Rc<RefCell<Plain>>>,
}

/// The same history built the plain way, with shared nodes and a map of
/// waiting nodes: for each requested name that has a head, the times along
/// its chain; and the number of nodes that were made.
fn plainly_built(names: &[&str], commits: &[ParsedCommit]) -> (HashMap<String, Vec<i64>>, usize) {
    let wanted: HashSet<String> = names.iter().map(|n| n.to_string()).collect();
    let mut pending: HashMap<String, Vec<Rc<RefCell<Plain>>>> =
        wanted.iter().map(|n| (n.clone(), Vec::new())).collect();
    let mut tops: HashMap<String, Rc<RefCell<Plain>>> = HashMap::new();
    let mut made = 0;
    for c in commits {
        for d in &c.deltas {
            if !pending.contains_key(&d.path) {
                continue;
            }
            let node = Rc::new(RefCell::new(Plain { time: c.when.sec, previous: None }));
            made += 1;
            for waiter in pending.remove(&d.path).unwrap() {
                assert!(waiter.borrow().previous.is_none());
                waiter.borrow_mut().previous = Some(node.clone());
            }
            if wanted.contains(&d.path) && !tops.contains_key(&d.path) {
                tops.insert(d.path.clone(), node.clone());
            }
            match d.change {
                Change::Modified => pending.entry(d.path.clone()).or_default().push(node),
                Change::Added | Change::Deleted => {}
                Change::Renamed { .. } | Change::Copied { .. } => {
                    pending.entry(d.from.clone()).or_default().push(node)
                }
            }
        }
    }
    let chains = tops
        .into_iter()
        .map(|(name, top)| {
            let mut times = Vec::new();
            let mut at = Some(top);
            while let Some(node) = at {
                times.push(node.borrow().time);
                at = node.borrow().previous.clone();
            }
            (name, times)
        })
        .collect();
    (chains, made)
}

#[test]
fn chains_visit_no_node_twice() {
    for seed in 0..200 {
        let commits = stream(seed, 12);
        let tree = built(&requested(seed), &commits);
        for (n, link) in links(&tree).iter().enumerate() {
            if let Some(p) = link {
                assert!(n < *p && *p < tree.len());
            }
        }
        for name in tree.paths() {
            let chain = tree.chain(name);
            assert_eq!(chain[0], tree.get(name).unwrap());
            assert!(chain.windows(2).all(|w| w[0] < w[1]));
            assert!(chain.windows(2).all(|w| tree.node(w[0]).previous == Some(w[1])));
            assert_eq!(tree.node(*chain.last().unwrap()).previous, None);
        }
    }
}

#[test]
fn time_does_not_grow_along_a_link() {
    for seed in 0..200 {
        let commits = stream(seed, 12);
        let tree = built(&NAMES, &commits);
        let times = data(&tree);
        for (n, link) in links(&tree).iter().enumerate() {
            if let Some(p) = link {
                assert!(times[*p].unwrap() <= times[n].unwrap());
            }
        }
        // Nodes are numbered down the stream.
        assert!(times.windows(2).all(|w| w[0] >= w[1]));
    }
}

#[test]
fn same_second_commits_may_be_linked() {
    let change = |path: &str| FileDelta {
        change: Change::Modified,
        path: path.to_string(),
        from: String::new(),
    };
    let commits: Vec<ParsedCommit> = (0..3)
        .map(|i| ParsedCommit {
            id: SHA1::from_bytes([i; 20]),
            when: Timestamp::new(77, 0),
            deltas: vec![change("a")],
        })
        .collect();
    let tree = built(&["a"], &commits);
    assert_eq!(tree.chain("a"), vec![0, 1, 2]);
    assert_eq!(data(&tree), vec![Some(77), Some(77), Some(77)]);
}

#[test]
fn history_is_that_of_the_plain_builder() {
    for seed in 0..300 {
        let commits = stream(seed, 10);
        let names = requested(seed);
        let tree = built(&names, &commits);
        let (chains, made) = plainly_built(&names, &commits);
        assert_eq!(tree.len(), made);
        assert_eq!(tree.paths().len(), chains.len());
        for (name, times) in &chains {
            let ours: Vec<i64> =
                tree.chain(name).iter().map(|&n| **tree.node(n).data.as_ref().unwrap()).collect();
            assert_eq!(&ours, times);
        }
    }
}

#[test]
fn every_node_comes_from_a_change_of_its_commit() {
    for seed in 0..100 {
        let commits = stream(seed, 10);
        let names = requested(seed);
        let tree = built(&names, &commits);
        // Every name with a head was asked for and occurs as a new name.
        for name in tree.paths() {
            assert!(names.contains(&name.as_str()));
            assert!(commits.iter().any(|c| c.deltas.iter().any(|d| &d.path == name)));
        }
        // And every name that was asked for and occurs has a head.
        for name in &names {
            let occurs = commits.iter().any(|c| c.deltas.iter().any(|d| d.path == *name));
            assert_eq!(tree.contains_key(name), occurs);
        }
        // No commit has more nodes than changes.
        for c in &commits {
            let nodes = data(&tree).iter().filter(|t| **t == Some(c.when.sec)).count();
            assert!(nodes <= c.deltas.len());
        }
    }
}

#[test]
fn head_is_the_newest_change_of_its_name() {
    for seed in 0..100 {
        let commits = stream(seed, 10);
        let tree = built(&NAMES, &commits);
        for name in tree.paths() {
            let newest = commits.iter().find(|c| c.deltas.iter().any(|d| &d.path == name)).unwrap();
            let head = tree.node(tree.get(name).unwrap());
            assert_eq!(head.data.as_deref(), Some(&newest.when.sec));
        }
    }
}

#[test]
fn link_once_written_stays() {
    for seed in 0..60 {
        let commits = stream(seed, 10);
        let names = requested(seed);
        let mut before: Vec<Option<usize>> = Vec::new();
        for taken in 0..=commits.len() {
            let after = links(&built(&names, &commits[..taken].to_vec()));
            assert!(before.len() <= after.len());
            for (n, link) in before.iter().enumerate() {
                if link.is_some() {
                    assert_eq!(after[n], *link);
                }
            }
            before = after;
        }
    }
}

#[test]
fn filter_changes_nothing_but_the_data() {
    for seed in 0..100 {
        let commits = stream(seed, 10);
        let names = requested(seed);
        let all = built(&names, &commits);
        let none = gather_history(&set_of(&names), time_of, |_: &ParsedCommit| false, &commits);
        let some =
            gather_history(&set_of(&names), time_of, |c: &ParsedCommit| c.when.sec % 3 == 0, &commits);
        assert_eq!(links(&none), links(&all));
        assert_eq!(links(&some), links(&all));
        assert_eq!(heads(&none), heads(&all));
        assert_eq!(heads(&some), heads(&all));
        assert!(data(&none).iter().all(|d| d.is_none()));
        for (kept, full) in data(&some).iter().zip(data(&all)) {
            let time = full.unwrap();
            assert_eq!(*kept, if time % 3 == 0 { Some(time) } else { None });
        }
    }
}

#[test]
fn visitor_changes_nothing_but_the_data() {
    for seed in 0..50 {
        let commits = stream(seed, 10);
        let names = requested(seed);
        let times = built(&names, &commits);
        let hashes =
            gather_history(&set_of(&names), |c: &ParsedCommit| c.id.to_string(), keep_all, &commits);
        assert_eq!(links(&hashes), links(&times));
        assert_eq!(heads(&hashes), heads(&times));
    }
}

#[test]
fn building_twice_gives_the_same_history() {
    for seed in 0..100 {
        let commits = stream(seed, 10);
        let names = requested(seed);
        let first = built(&names, &commits);
        let second = built(&names, &commits);
        assert_eq!(links(&first), links(&second));
        assert_eq!(heads(&first), heads(&second));
        assert_eq!(data(&first), data(&second));
    }
}

#[test]
fn order_of_the_requested_names_does_not_matter() {
    for seed in 0..50 {
        let commits = stream(seed, 10);
        let names = requested(seed);
        let mut turned = names.clone();
        turned.reverse();
        let first = built(&names, &commits);
        let second = built(&turned, &commits);
        assert_eq!(links(&first), links(&second));
        assert_eq!(heads(&first), heads(&second));
    }
}
