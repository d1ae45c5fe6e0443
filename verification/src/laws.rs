//! What holds of every history, whatever the names and the commits.
//!
//! A place in the stream is a pair: the index of a commit, and the index of a
//! change among those of the commit. The laws speak of the builder as it
//! stands before the change at a place, [`state_at`], and of the finished
//! history, [`history`].

use crate::model::{
    apply_commits, apply_delta, apply_deltas, chain, earlier_name, history, initial,
    lemma_apply_commits_wf, lemma_apply_delta_keeps_links, lemma_apply_delta_nodes,
    lemma_apply_deltas_wf, lemma_chain, waiting, Building, NodeModel,
};
use crate::history::HistoryTree;
use crate::parsing::ParsedCommit;
use crate::types::{CommitView, DeltaView};
use vstd::prelude::*;

verus! {

/// The stream holds a change at the place `(c, d)`.
pub open spec fn in_stream(commits: Seq<CommitView>, c: int, d: int) -> bool {
    0 <= c < commits.len() && 0 <= d < commits[c].deltas.len()
}

/// The place `(c1, d1)` comes before `(c2, d2)` in the stream.
pub open spec fn precedes(c1: int, d1: int, c2: int, d2: int) -> bool {
    c1 < c2 || (c1 == c2 && d1 < d2)
}

/// A place between two changes, before the first or after the last.
pub open spec fn is_cut(commits: Seq<CommitView>, c: int, d: int) -> bool {
    (0 <= c < commits.len() && 0 <= d <= commits[c].deltas.len()) || (c == commits.len() && d
        == 0)
}

/// The change at the place `(c, d)`.
pub open spec fn change_at(commits: Seq<CommitView>, c: int, d: int) -> DeltaView {
    commits[c].deltas[d]
}

/// The name that the change at `(c, d)` gives its file.
pub open spec fn path_at(commits: Seq<CommitView>, c: int, d: int) -> Seq<char> {
    commits[c].deltas[d].path
}

/// The builder as it stands before the change at `(c, d)`: after the commits
/// before `c` and the first `d` changes of the commit `c`.
pub open spec fn state_at(paths: Set<Seq<char>>, commits: Seq<CommitView>, c: int, d: int) -> Building {
    apply_deltas(apply_commits(paths, commits.take(c)), paths, c, commits[c].deltas.take(d))
}

/// The builder watches the name of the change at `(c, d)` when it comes to
/// it: the change makes a node.
pub open spec fn watched_at(paths: Set<Seq<char>>, commits: Seq<CommitView>, c: int, d: int) -> bool {
    state_at(paths, commits, c, d).pending.contains_key(path_at(commits, c, d))
}

/// The builder starts as `initial`.
pub proof fn lemma_state_at_start(paths: Set<Seq<char>>, commits: Seq<CommitView>)
    ensures
        state_at(paths, commits, 0, 0) == initial(paths),
{
    assert(commits.take(0) =~= Seq::empty());
    assert(commits[0].deltas.take(0) =~= Seq::empty());
}

/// The change at `(c, d)` leads from the state before it to the state before
/// the next change of the commit.
pub proof fn lemma_state_at_next_change(
    paths: Set<Seq<char>>,
    commits: Seq<CommitView>,
    c: int,
    d: int,
)
    requires
        in_stream(commits, c, d),
    ensures
        state_at(paths, commits, c, d + 1) == apply_delta(
            state_at(paths, commits, c, d),
            paths,
            c,
            d,
            change_at(commits, c, d),
        ),
{
    let deltas = commits[c].deltas;
    assert(deltas.take(d + 1).drop_last() =~= deltas.take(d));
    assert(deltas.take(d + 1).last() == deltas[d]);
}

/// The state after the last change of a commit is the state before the first
/// change of the next.
pub proof fn lemma_state_at_next_commit(paths: Set<Seq<char>>, commits: Seq<CommitView>, c: int)
    requires
        0 <= c < commits.len(),
    ensures
        state_at(paths, commits, c + 1, 0) == state_at(
            paths,
            commits,
            c,
            commits[c].deltas.len() as int,
        ),
{
    let deltas = commits[c].deltas;
    assert(commits.take(c + 1).drop_last() =~= commits.take(c));
    assert(commits.take(c + 1).last() == commits[c]);
    assert(deltas.take(deltas.len() as int) =~= deltas);
    assert(commits[c + 1].deltas.take(0) =~= Seq::empty());
}

/// The state after the last commit is the finished builder.
pub proof fn lemma_state_at_end(paths: Set<Seq<char>>, commits: Seq<CommitView>)
    ensures
        state_at(paths, commits, commits.len() as int, 0) == apply_commits(paths, commits),
{
    assert(commits.take(commits.len() as int) =~= commits);
    assert(commits[commits.len() as int].deltas.take(0) =~= Seq::empty());
}

/// The builder is well formed at every cut.
pub proof fn lemma_state_at_wf(paths: Set<Seq<char>>, commits: Seq<CommitView>, c: int, d: int)
    requires
        is_cut(commits, c, d),
    ensures
        state_at(paths, commits, c, d).wf(),
{
    lemma_apply_commits_wf(paths, commits.take(c));
    lemma_apply_deltas_wf(
        apply_commits(paths, commits.take(c)),
        paths,
        c,
        commits[c].deltas.take(d),
    );
}

/// Every node was made by a change of the stream that lies before the cut,
/// and a node that was made later was made by a later change.
pub open spec fn origins_ordered(commits: Seq<CommitView>, b: Building, c: int, d: int) -> bool {
    &&& forall|i: int|
        0 <= i < b.graph.nodes.len() ==> {
            let n = #[trigger] b.graph.nodes[i];
            in_stream(commits, n.commit, n.delta) && precedes(n.commit, n.delta, c, d)
        }
    &&& forall|i: int, j: int|
        0 <= i < j < b.graph.nodes.len() ==> precedes(
            (#[trigger] b.graph.nodes[i]).commit,
            b.graph.nodes[i].delta,
            (#[trigger] b.graph.nodes[j]).commit,
            b.graph.nodes[j].delta,
        )
}

/// The origins of the nodes are ordered at every cut.
pub proof fn lemma_origins_ordered(paths: Set<Seq<char>>, commits: Seq<CommitView>, c: int, d: int)
    requires
        is_cut(commits, c, d),
    ensures
        origins_ordered(commits, state_at(paths, commits, c, d), c, d),
    decreases c, d,
{
    if d > 0 {
        lemma_origins_ordered(paths, commits, c, d - 1);
        lemma_state_at_next_change(paths, commits, c, d - 1);
        lemma_apply_delta_nodes(
            state_at(paths, commits, c, d - 1),
            paths,
            c,
            d - 1,
            change_at(commits, c, d - 1),
        );
    } else if c > 0 {
        lemma_origins_ordered(paths, commits, c - 1, commits[c - 1].deltas.len() as int);
        lemma_state_at_next_commit(paths, commits, c - 1);
    } else {
        lemma_state_at_start(paths, commits);
    }
}

/// Every node of `b` was made by a change whose name the builder watched when
/// it came to it, as the node that was then next to be made.
pub open spec fn nodes_covered(paths: Set<Seq<char>>, commits: Seq<CommitView>, b: Building) -> bool {
    forall|i: int|
        0 <= i < b.graph.nodes.len() ==> {
            let n = #[trigger] b.graph.nodes[i];
            watched_at(paths, commits, n.commit, n.delta) && state_at(
                paths,
                commits,
                n.commit,
                n.delta,
            ).graph.nodes.len() == i
        }
}

/// Every change before the cut `(c, d)` whose name the builder watched when
/// it came to it has its node in `b`.
pub open spec fn watched_have_nodes(
    paths: Set<Seq<char>>,
    commits: Seq<CommitView>,
    b: Building,
    c: int,
    d: int,
) -> bool {
    forall|x: int, y: int|
        in_stream(commits, x, y) && precedes(x, y, c, d) && #[trigger] watched_at(
            paths,
            commits,
            x,
            y,
        ) ==> {
            let k = state_at(paths, commits, x, y).graph.nodes.len() as int;
            k < b.graph.nodes.len() && b.graph.nodes[k].commit == x && b.graph.nodes[k].delta == y
        }
}

/// At every cut the nodes are those of the watched changes before it.
pub proof fn lemma_coverage(paths: Set<Seq<char>>, commits: Seq<CommitView>, c: int, d: int)
    requires
        is_cut(commits, c, d),
    ensures
        nodes_covered(paths, commits, state_at(paths, commits, c, d)),
        watched_have_nodes(paths, commits, state_at(paths, commits, c, d), c, d),
    decreases c, d,
{
    let b = state_at(paths, commits, c, d);
    if d > 0 {
        let a = state_at(paths, commits, c, d - 1);
        lemma_coverage(paths, commits, c, d - 1);
        lemma_state_at_next_change(paths, commits, c, d - 1);
        lemma_apply_delta_nodes(a, paths, c, d - 1, change_at(commits, c, d - 1));
        assert forall|i: int| 0 <= i < b.graph.nodes.len() implies ({
            let n = #[trigger] b.graph.nodes[i];
            watched_at(paths, commits, n.commit, n.delta) && state_at(
                paths,
                commits,
                n.commit,
                n.delta,
            ).graph.nodes.len() == i
        }) by {
            if i < a.graph.nodes.len() {
                let n = a.graph.nodes[i];
                assert(watched_at(paths, commits, n.commit, n.delta));
            }
        }
        assert forall|x: int, y: int|
            in_stream(commits, x, y) && precedes(x, y, c, d) && #[trigger] watched_at(
                paths,
                commits,
                x,
                y,
            ) implies ({
            let k = state_at(paths, commits, x, y).graph.nodes.len() as int;
            k < b.graph.nodes.len() && b.graph.nodes[k].commit == x && b.graph.nodes[k].delta == y
        }) by {
            let k = state_at(paths, commits, x, y).graph.nodes.len() as int;
            if precedes(x, y, c, d - 1) {
                assert(k < a.graph.nodes.len());
                assert(b.graph.nodes[k].commit == a.graph.nodes[k].commit);
            }
        }
    } else if c > 0 {
        lemma_coverage(paths, commits, c - 1, commits[c - 1].deltas.len() as int);
        lemma_state_at_next_commit(paths, commits, c - 1);
    } else {
        lemma_state_at_start(paths, commits);
    }
}

/// A node that has a `previous` at one cut has the same at every later cut.
pub proof fn lemma_links_persist(
    paths: Set<Seq<char>>,
    commits: Seq<CommitView>,
    c1: int,
    d1: int,
    c2: int,
    d2: int,
    i: int,
)
    requires
        is_cut(commits, c1, d1),
        is_cut(commits, c2, d2),
        precedes(c1, d1, c2, d2) || (c1 == c2 && d1 == d2),
        0 <= i < state_at(paths, commits, c1, d1).graph.nodes.len(),
        state_at(paths, commits, c1, d1).graph.nodes[i].previous is Some,
    ensures
        i < state_at(paths, commits, c2, d2).graph.nodes.len(),
        state_at(paths, commits, c2, d2).graph.nodes[i] == state_at(
            paths,
            commits,
            c1,
            d1,
        ).graph.nodes[i],
    decreases c2, d2,
{
    if c1 == c2 && d1 == d2 {
    } else if d2 > 0 {
        let a = state_at(paths, commits, c2, d2 - 1);
        lemma_links_persist(paths, commits, c1, d1, c2, d2 - 1, i);
        lemma_state_at_next_change(paths, commits, c2, d2 - 1);
        lemma_state_at_wf(paths, commits, c2, d2 - 1);
        lemma_apply_delta_keeps_links(a, paths, c2, d2 - 1, change_at(commits, c2, d2 - 1), i);
        lemma_apply_delta_nodes(a, paths, c2, d2 - 1, change_at(commits, c2, d2 - 1));
    } else {
        lemma_links_persist(paths, commits, c1, d1, c2 - 1, commits[c2 - 1].deltas.len() as int, i);
        lemma_state_at_next_commit(paths, commits, c2 - 1);
    }
}

/// The change at `(c, d)` writes the `previous` of the node `i`: the builder
/// watches the change's name, and `i` waits for it.
pub open spec fn links_at(
    paths: Set<Seq<char>>,
    commits: Seq<CommitView>,
    c: int,
    d: int,
    i: int,
) -> bool {
    &&& in_stream(commits, c, d)
    &&& watched_at(paths, commits, c, d)
    &&& state_at(paths, commits, c, d).pending[path_at(commits, c, d)].contains(i)
}

/// **Acyclicity.** The chain from the head of any name in the history visits
/// no node twice: the indices of its nodes grow, each node is the `previous`
/// of the one before it, and the last one has no `previous`.
pub proof fn law_acyclic(paths: Set<Seq<char>>, commits: Seq<CommitView>, name: Seq<char>)
    requires
        history(paths, commits).heads.contains_key(name),
    ensures
        ({
            let g = history(paths, commits);
            let c = chain(g, g.heads[name]);
            &&& c.len() >= 1
            &&& c[0] == g.heads[name]
            &&& forall|k: int| 0 <= k < c.len() ==> 0 <= #[trigger] c[k] < g.nodes.len()
            &&& forall|k: int|
                0 <= k < c.len() - 1 ==> g.nodes[#[trigger] c[k]].previous == Some(c[k + 1])
            &&& g.nodes[c.last()].previous is None
            &&& forall|j: int, k: int| 0 <= j < k < c.len() ==> #[trigger] c[j] != #[trigger] c[k]
        }),
{
    let g = history(paths, commits);
    lemma_apply_commits_wf(paths, commits);
    lemma_chain(g, g.heads[name]);
}

/// **Links lead back in the stream.** The `previous` of a node was made by a
/// later change of the stream than the node: by a later change of the same
/// commit, or by a change of a commit that comes later, which is an older one.
pub proof fn law_previous_is_later_in_stream(
    paths: Set<Seq<char>>,
    commits: Seq<CommitView>,
    i: int,
)
    requires
        0 <= i < history(paths, commits).nodes.len(),
        history(paths, commits).nodes[i].previous is Some,
    ensures
        ({
            let g = history(paths, commits);
            let j = g.nodes[i].previous.unwrap();
            &&& i < j < g.nodes.len()
            &&& in_stream(commits, g.nodes[i].commit, g.nodes[i].delta)
            &&& in_stream(commits, g.nodes[j].commit, g.nodes[j].delta)
            &&& precedes(g.nodes[i].commit, g.nodes[i].delta, g.nodes[j].commit, g.nodes[j].delta)
        }),
{
    let n = commits.len() as int;
    lemma_state_at_end(paths, commits);
    lemma_state_at_wf(paths, commits, n, 0);
    lemma_origins_ordered(paths, commits, n, 0);
}

/// The commits come newest first: none is younger than one before it.
pub open spec fn newest_first(commits: Seq<CommitView>) -> bool {
    forall|a: int, b: int|
        0 <= a <= b < commits.len() ==> (#[trigger] commits[b]).when.at_or_before(
            (#[trigger] commits[a]).when,
        )
}

/// **Monotonic time.** Where the commits come newest first, the commit
/// behind a node's `previous` is no younger than the commit behind the node.
pub proof fn law_monotonic_time(paths: Set<Seq<char>>, commits: Seq<CommitView>, i: int)
    requires
        newest_first(commits),
        0 <= i < history(paths, commits).nodes.len(),
        history(paths, commits).nodes[i].previous is Some,
    ensures
        ({
            let g = history(paths, commits);
            let j = g.nodes[i].previous.unwrap();
            commits[g.nodes[j].commit].when.at_or_before(commits[g.nodes[i].commit].when)
        }),
{
    law_previous_is_later_in_stream(paths, commits, i);
}

/// **Coverage.** Every node of the history was made by a change of the
/// stream whose new name the builder watched at that moment, and it is the
/// node that the builder made then.
pub proof fn law_coverage(paths: Set<Seq<char>>, commits: Seq<CommitView>, i: int)
    requires
        0 <= i < history(paths, commits).nodes.len(),
    ensures
        ({
            let n = history(paths, commits).nodes[i];
            &&& in_stream(commits, n.commit, n.delta)
            &&& watched_at(paths, commits, n.commit, n.delta)
            &&& state_at(paths, commits, n.commit, n.delta).graph.nodes.len() == i
        }),
{
    let n = commits.len() as int;
    lemma_state_at_end(paths, commits);
    lemma_origins_ordered(paths, commits, n, 0);
    lemma_coverage(paths, commits, n, 0);
}

/// **Every watched change has its node.** A change whose new name the
/// builder watches when it comes to it makes one node, which bears the place
/// of the change; a change to a name that is not watched makes none.
pub proof fn law_watched_changes_make_nodes(
    paths: Set<Seq<char>>,
    commits: Seq<CommitView>,
    c: int,
    d: int,
)
    requires
        in_stream(commits, c, d),
    ensures
        ({
            let g = history(paths, commits);
            let k = state_at(paths, commits, c, d).graph.nodes.len() as int;
            if watched_at(paths, commits, c, d) {
                k < g.nodes.len() && g.nodes[k].commit == c && g.nodes[k].delta == d
            } else {
                forall|i: int|
                    0 <= i < g.nodes.len() ==> !((#[trigger] g.nodes[i]).commit == c
                        && g.nodes[i].delta == d)
            }
        }),
{
    let n = commits.len() as int;
    let g = history(paths, commits);
    lemma_state_at_end(paths, commits);
    lemma_coverage(paths, commits, n, 0);
    if !watched_at(paths, commits, c, d) {
        assert forall|i: int| 0 <= i < g.nodes.len() implies !((#[trigger] g.nodes[i]).commit == c
            && g.nodes[i].delta == d) by {
            let m = g.nodes[i];
            assert(watched_at(paths, commits, m.commit, m.delta));
        }
    }
}

/// **At-most-once link, first half.** Once a node has a `previous`, it keeps
/// it: the finished history shows the link as it was first written.
pub proof fn law_link_is_final(
    paths: Set<Seq<char>>,
    commits: Seq<CommitView>,
    c: int,
    d: int,
    i: int,
)
    requires
        is_cut(commits, c, d),
        0 <= i < state_at(paths, commits, c, d).graph.nodes.len(),
        state_at(paths, commits, c, d).graph.nodes[i].previous is Some,
    ensures
        i < history(paths, commits).nodes.len(),
        history(paths, commits).nodes[i].previous == state_at(
            paths,
            commits,
            c,
            d,
        ).graph.nodes[i].previous,
{
    let n = commits.len() as int;
    lemma_state_at_end(paths, commits);
    lemma_links_persist(paths, commits, c, d, n, 0, i);
}

/// **At-most-once link, second half.** No two changes write the `previous`
/// of one node, and a node whose `previous` is written has none before.
pub proof fn law_linked_once(
    paths: Set<Seq<char>>,
    commits: Seq<CommitView>,
    c1: int,
    d1: int,
    c2: int,
    d2: int,
    i: int,
)
    requires
        links_at(paths, commits, c1, d1, i),
        links_at(paths, commits, c2, d2, i),
    ensures
        c1 == c2 && d1 == d2,
        0 <= i < state_at(paths, commits, c1, d1).graph.nodes.len(),
        state_at(paths, commits, c1, d1).graph.nodes[i].previous is None,
{
    lemma_written_node_is_unlinked(paths, commits, c1, d1, i);
    lemma_written_node_is_unlinked(paths, commits, c2, d2, i);
    if precedes(c1, d1, c2, d2) {
        lemma_write_then_linked(paths, commits, c1, d1, i);
        lemma_links_persist(paths, commits, c1, d1 + 1, c2, d2, i);
    } else if precedes(c2, d2, c1, d1) {
        lemma_write_then_linked(paths, commits, c2, d2, i);
        lemma_links_persist(paths, commits, c2, d2 + 1, c1, d1, i);
    }
}

/// A node whose `previous` a change writes exists and has none yet.
pub proof fn lemma_written_node_is_unlinked(
    paths: Set<Seq<char>>,
    commits: Seq<CommitView>,
    c: int,
    d: int,
    i: int,
)
    requires
        links_at(paths, commits, c, d, i),
    ensures
        0 <= i < state_at(paths, commits, c, d).graph.nodes.len(),
        state_at(paths, commits, c, d).graph.nodes[i].previous is None,
{
    let b = state_at(paths, commits, c, d);
    let waiters = b.pending[path_at(commits, c, d)];
    lemma_state_at_wf(paths, commits, c, d);
    let k = choose|k: int| 0 <= k < waiters.len() && waiters[k] == i;
    assert(b.pending[path_at(commits, c, d)][k] == i);
}

/// After a change has written the `previous` of a node, the node has one:
/// the node that the change made.
pub proof fn lemma_write_then_linked(
    paths: Set<Seq<char>>,
    commits: Seq<CommitView>,
    c: int,
    d: int,
    i: int,
)
    requires
        links_at(paths, commits, c, d, i),
    ensures
        0 <= i < state_at(paths, commits, c, d).graph.nodes.len(),
        i < state_at(paths, commits, c, d + 1).graph.nodes.len(),
        state_at(paths, commits, c, d + 1).graph.nodes[i].previous == Some(
            state_at(paths, commits, c, d).graph.nodes.len() as int,
        ),
{
    lemma_written_node_is_unlinked(paths, commits, c, d, i);
    lemma_state_at_next_change(paths, commits, c, d);
}

/// No change after the place `(c1, d1)` and before `(c2, d2)` gives a file
/// the name `name`.
pub open spec fn untouched_between(
    commits: Seq<CommitView>,
    name: Seq<char>,
    c1: int,
    d1: int,
    c2: int,
    d2: int,
) -> bool {
    forall|x: int, y: int|
        in_stream(commits, x, y) && precedes(c1, d1, x, y) && precedes(x, y, c2, d2)
            ==> #[trigger] path_at(commits, x, y) != name
}

/// No change before the place `(c, d)` gives a file the name `name`.
pub open spec fn untouched_before(commits: Seq<CommitView>, name: Seq<char>, c: int, d: int) -> bool {
    forall|x: int, y: int|
        in_stream(commits, x, y) && precedes(x, y, c, d) ==> #[trigger] path_at(commits, x, y)
            != name
}

/// The name that the file of the node `n` had before the change that made
/// the node.
pub open spec fn awaited_name(commits: Seq<CommitView>, n: NodeModel) -> Option<Seq<char>> {
    earlier_name(change_at(commits, n.commit, n.delta))
}

/// Every node that waits under a name waits for the name that its file had
/// before, and no change has had that name since the node was made.
pub open spec fn waiters_wait(commits: Seq<CommitView>, b: Building, c: int, d: int) -> bool {
    forall|p: Seq<char>, k: int|
        b.pending.contains_key(p) && 0 <= k < b.pending[p].len() ==> {
            let n = b.graph.nodes[#[trigger] b.pending[p][k]];
            awaited_name(commits, n) == Some(p) && untouched_between(
                commits,
                p,
                n.commit,
                n.delta,
                c,
                d,
            )
        }
}

/// At every cut the waiting nodes wait as `waiters_wait` says.
pub proof fn lemma_waiters_wait(paths: Set<Seq<char>>, commits: Seq<CommitView>, c: int, d: int)
    requires
        is_cut(commits, c, d),
    ensures
        waiters_wait(commits, state_at(paths, commits, c, d), c, d),
    decreases c, d,
{
    let b = state_at(paths, commits, c, d);
    if d > 0 {
        let a = state_at(paths, commits, c, d - 1);
        let ch = change_at(commits, c, d - 1);
        let q = ch.path;
        lemma_waiters_wait(paths, commits, c, d - 1);
        lemma_state_at_next_change(paths, commits, c, d - 1);
        lemma_state_at_wf(paths, commits, c, d - 1);
        lemma_apply_delta_nodes(a, paths, c, d - 1, ch);
        assert(path_at(commits, c, d - 1) == q);
        assert forall|p: Seq<char>, k: int|
            b.pending.contains_key(p) && 0 <= k < b.pending[p].len() implies ({
            let n = b.graph.nodes[#[trigger] b.pending[p][k]];
            awaited_name(commits, n) == Some(p) && untouched_between(
                commits,
                p,
                n.commit,
                n.delta,
                c,
                d,
            )
        }) by {
            let i = b.pending[p][k];
            let n = b.graph.nodes[i];
            if !a.pending.contains_key(q) {
                let m = a.graph.nodes[a.pending[p][k]];
                assert(untouched_between(commits, p, m.commit, m.delta, c, d - 1));
            } else if i == a.graph.nodes.len() {
            } else {
                assert(a.pending.contains_key(p) && a.pending[p][k] == i);
                let m = a.graph.nodes[a.pending[p][k]];
                assert(untouched_between(commits, p, m.commit, m.delta, c, d - 1));
                assert(n.commit == m.commit && n.delta == m.delta);
            }
        }
    } else if c > 0 {
        let e = commits[c - 1].deltas.len() as int;
        lemma_waiters_wait(paths, commits, c - 1, e);
        lemma_state_at_next_commit(paths, commits, c - 1);
        assert forall|p: Seq<char>, k: int|
            b.pending.contains_key(p) && 0 <= k < b.pending[p].len() implies ({
            let n = b.graph.nodes[#[trigger] b.pending[p][k]];
            awaited_name(commits, n) == Some(p) && untouched_between(
                commits,
                p,
                n.commit,
                n.delta,
                c,
                d,
            )
        }) by {
            let n = b.graph.nodes[b.pending[p][k]];
            assert(untouched_between(commits, p, n.commit, n.delta, c - 1, e));
        }
    } else {
        lemma_state_at_start(paths, commits);
    }
}

/// Every node without a `previous` whose file had a name before waits under
/// that name.
pub open spec fn unlinked_wait(commits: Seq<CommitView>, b: Building) -> bool {
    forall|i: int|
        0 <= i < b.graph.nodes.len() && (#[trigger] b.graph.nodes[i]).previous is None
            && awaited_name(commits, b.graph.nodes[i]) is Some ==> {
            let p = awaited_name(commits, b.graph.nodes[i]).unwrap();
            b.pending.contains_key(p) && b.pending[p].contains(i)
        }
}

/// At every cut the nodes without a `previous` wait as `unlinked_wait` says.
pub proof fn lemma_unlinked_wait(paths: Set<Seq<char>>, commits: Seq<CommitView>, c: int, d: int)
    requires
        is_cut(commits, c, d),
    ensures
        unlinked_wait(commits, state_at(paths, commits, c, d)),
    decreases c, d,
{
    let b = state_at(paths, commits, c, d);
    if d > 0 {
        let a = state_at(paths, commits, c, d - 1);
        let ch = change_at(commits, c, d - 1);
        let q = ch.path;
        lemma_unlinked_wait(paths, commits, c, d - 1);
        lemma_state_at_next_change(paths, commits, c, d - 1);
        lemma_state_at_wf(paths, commits, c, d - 1);
        lemma_apply_delta_nodes(a, paths, c, d - 1, ch);
        assert forall|i: int|
            0 <= i < b.graph.nodes.len() && (#[trigger] b.graph.nodes[i]).previous is None
                && awaited_name(commits, b.graph.nodes[i]) is Some implies ({
            let p = awaited_name(commits, b.graph.nodes[i]).unwrap();
            b.pending.contains_key(p) && b.pending[p].contains(i)
        }) by {
            let p = awaited_name(commits, b.graph.nodes[i]).unwrap();
            if a.pending.contains_key(q) {
                let node = a.graph.nodes.len() as int;
                let rest = a.pending.remove(q);
                if i == node {
                    let list = waiting(rest, p).push(node);
                    assert(list[list.len() - 1] == i);
                } else {
                    assert(a.graph.nodes[i].previous is None);
                    assert(awaited_name(commits, a.graph.nodes[i]) == Some(p));
                    assert(a.pending[p].contains(i));
                    let k = choose|k: int| 0 <= k < a.pending[p].len() && a.pending[p][k] == i;
                    assert(p != q);
                    assert(rest[p][k] == i);
                    if earlier_name(ch) == Some(p) {
                        let list = waiting(rest, p).push(node);
                        assert(list[k] == i);
                    }
                    assert(b.pending[p][k] == i);
                }
            }
        }
    } else if c > 0 {
        lemma_unlinked_wait(paths, commits, c - 1, commits[c - 1].deltas.len() as int);
        lemma_state_at_next_commit(paths, commits, c - 1);
    } else {
        lemma_state_at_start(paths, commits);
    }
}

/// What the builder knows of the requested names and of the heads.
pub open spec fn heads_sound(
    paths: Set<Seq<char>>,
    commits: Seq<CommitView>,
    b: Building,
    c: int,
    d: int,
) -> bool {
    // A requested name that no change has had yet is still watched.
    &&& forall|p: Seq<char>|
        paths.contains(p) && untouched_before(commits, p, c, d) ==> #[trigger] b.pending.contains_key(p)
    // A head belongs to a requested name, and is the node of the first
    // change that had the name.
    &&& forall|p: Seq<char>| #[trigger]
        b.graph.heads.contains_key(p) ==> {
            let n = b.graph.nodes[b.graph.heads[p]];
            &&& paths.contains(p)
            &&& 0 <= b.graph.heads[p] < b.graph.nodes.len()
            &&& path_at(commits, n.commit, n.delta) == p
            &&& untouched_before(commits, p, n.commit, n.delta)
        }
    // A requested name that a change has had has a head.
    &&& forall|p: Seq<char>|
        paths.contains(p) && !untouched_before(commits, p, c, d) ==> #[trigger] b.graph.heads.contains_key(p)
    // A watched name was requested and no change has had it yet, or a node
    // waits under it.
    &&& forall|p: Seq<char>| #[trigger]
        b.pending.contains_key(p) ==> (paths.contains(p) && untouched_before(commits, p, c, d))
            || b.pending[p].len() > 0
}

/// Moving the cut past a change to another name keeps `name` untouched.
pub proof fn lemma_untouched_step(commits: Seq<CommitView>, name: Seq<char>, c: int, d: int)
    requires
        in_stream(commits, c, d),
        untouched_before(commits, name, c, d),
        path_at(commits, c, d) != name,
    ensures
        untouched_before(commits, name, c, d + 1),
{
}

/// At every cut the heads are sound.
pub proof fn lemma_heads_sound(paths: Set<Seq<char>>, commits: Seq<CommitView>, c: int, d: int)
    requires
        is_cut(commits, c, d),
    ensures
        heads_sound(paths, commits, state_at(paths, commits, c, d), c, d),
    decreases c, d,
{
    let b = state_at(paths, commits, c, d);
    if d > 0 {
        let a = state_at(paths, commits, c, d - 1);
        let ch = change_at(commits, c, d - 1);
        let q = ch.path;
        lemma_heads_sound(paths, commits, c, d - 1);
        lemma_state_at_next_change(paths, commits, c, d - 1);
        lemma_state_at_wf(paths, commits, c, d - 1);
        lemma_apply_delta_nodes(a, paths, c, d - 1, ch);
        assert(path_at(commits, c, d - 1) == q);
        assert forall|p: Seq<char>|
            paths.contains(p) && untouched_before(commits, p, c, d) implies #[trigger] b.pending.contains_key(
            p,
        ) by {
            assert(untouched_before(commits, p, c, d - 1));
            assert(a.pending.contains_key(p));
            assert(p != q);
        }
        assert forall|p: Seq<char>| #[trigger] b.graph.heads.contains_key(p) implies ({
            let n = b.graph.nodes[b.graph.heads[p]];
            &&& paths.contains(p)
            &&& 0 <= b.graph.heads[p] < b.graph.nodes.len()
            &&& path_at(commits, n.commit, n.delta) == p
            &&& untouched_before(commits, p, n.commit, n.delta)
        }) by {
            if a.graph.heads.contains_key(p) {
                let h = a.graph.heads[p];
                assert(b.graph.heads[p] == h);
                assert(b.graph.nodes[h].commit == a.graph.nodes[h].commit);
            } else {
                assert(p == q);
                if !untouched_before(commits, p, c, d - 1) {
                    assert(a.graph.heads.contains_key(p));
                }
            }
        }
        assert forall|p: Seq<char>|
            paths.contains(p) && !untouched_before(commits, p, c, d) implies #[trigger] b.graph.heads.contains_key(
            p,
        ) by {
            if !untouched_before(commits, p, c, d - 1) {
                assert(a.graph.heads.contains_key(p));
            } else {
                if p != q {
                    lemma_untouched_step(commits, p, c, d - 1);
                }
                assert(a.pending.contains_key(p));
            }
        }
        assert forall|p: Seq<char>| #[trigger] b.pending.contains_key(p) implies (paths.contains(p)
            && untouched_before(commits, p, c, d)) || b.pending[p].len() > 0 by {
            if a.pending.contains_key(q) {
                if earlier_name(ch) == Some(p) {
                } else {
                    assert(a.pending.contains_key(p) && p != q);
                    assert(b.pending[p] == a.pending[p]);
                    if paths.contains(p) && untouched_before(commits, p, c, d - 1) {
                        lemma_untouched_step(commits, p, c, d - 1);
                    }
                }
            } else {
                assert(p != q);
                if paths.contains(p) && untouched_before(commits, p, c, d - 1) {
                    lemma_untouched_step(commits, p, c, d - 1);
                }
            }
        }
    } else if c > 0 {
        let e = commits[c - 1].deltas.len() as int;
        lemma_heads_sound(paths, commits, c - 1, e);
        lemma_state_at_next_commit(paths, commits, c - 1);
        assert forall|p: Seq<char>| untouched_before(commits, p, c, d) == untouched_before(
            commits,
            p,
            c - 1,
            e,
        ) by {
            lemma_untouched_same_cut(commits, p, c - 1);
        }
    } else {
        lemma_state_at_start(paths, commits);
    }
}

/// The end of one commit and the start of the next are the same cut.
pub proof fn lemma_untouched_same_cut(commits: Seq<CommitView>, name: Seq<char>, c: int)
    requires
        0 <= c < commits.len(),
    ensures
        untouched_before(commits, name, c + 1, 0) == untouched_before(
            commits,
            name,
            c,
            commits[c].deltas.len() as int,
        ),
{
    let e = commits[c].deltas.len() as int;
    if untouched_before(commits, name, c + 1, 0) {
        assert forall|x: int, y: int| in_stream(commits, x, y) && precedes(x, y, c, e) implies #[trigger] path_at(
            commits,
            x,
            y,
        ) != name by {
            assert(precedes(x, y, c + 1, 0));
        }
    }
    if untouched_before(commits, name, c, e) {
        assert forall|x: int, y: int|
            in_stream(commits, x, y) && precedes(x, y, c + 1, 0) implies #[trigger] path_at(
            commits,
            x,
            y,
        ) != name by {
            assert(precedes(x, y, c, e));
        }
    }
}

/// Every link leads from a node to the node of the next change that has the
/// name which the first node's file had before.
pub open spec fn links_follow(commits: Seq<CommitView>, b: Building) -> bool {
    forall|i: int|
        0 <= i < b.graph.nodes.len() && (#[trigger] b.graph.nodes[i]).previous is Some ==> {
            let n = b.graph.nodes[i];
            let m = b.graph.nodes[n.previous.unwrap()];
            &&& awaited_name(commits, n) == Some(path_at(commits, m.commit, m.delta))
            &&& untouched_between(
                commits,
                path_at(commits, m.commit, m.delta),
                n.commit,
                n.delta,
                m.commit,
                m.delta,
            )
        }
}

/// At every cut the links follow the names.
pub proof fn lemma_links_follow(paths: Set<Seq<char>>, commits: Seq<CommitView>, c: int, d: int)
    requires
        is_cut(commits, c, d),
    ensures
        links_follow(commits, state_at(paths, commits, c, d)),
    decreases c, d,
{
    let b = state_at(paths, commits, c, d);
    if d > 0 {
        let a = state_at(paths, commits, c, d - 1);
        let ch = change_at(commits, c, d - 1);
        let q = ch.path;
        lemma_links_follow(paths, commits, c, d - 1);
        lemma_waiters_wait(paths, commits, c, d - 1);
        lemma_state_at_next_change(paths, commits, c, d - 1);
        lemma_state_at_wf(paths, commits, c, d - 1);
        lemma_apply_delta_nodes(a, paths, c, d - 1, ch);
        assert(path_at(commits, c, d - 1) == q);
        assert forall|i: int|
            0 <= i < b.graph.nodes.len() && (#[trigger] b.graph.nodes[i]).previous is Some implies ({
            let n = b.graph.nodes[i];
            let m = b.graph.nodes[n.previous.unwrap()];
            &&& awaited_name(commits, n) == Some(path_at(commits, m.commit, m.delta))
            &&& untouched_between(
                commits,
                path_at(commits, m.commit, m.delta),
                n.commit,
                n.delta,
                m.commit,
                m.delta,
            )
        }) by {
            if a.pending.contains_key(q) {
                let node = a.graph.nodes.len() as int;
                assert(i < node);
                if a.graph.nodes[i].previous is Some {
                    lemma_apply_delta_keeps_links(a, paths, c, d - 1, ch, i);
                    let j = a.graph.nodes[i].previous.unwrap();
                    assert(b.graph.nodes[j].commit == a.graph.nodes[j].commit);
                } else {
                    let waiters = a.pending[q];
                    assert(waiters.contains(i));
                    let k = choose|k: int| 0 <= k < waiters.len() && waiters[k] == i;
                    assert(a.pending[q][k] == i);
                    assert(b.graph.nodes[i].previous == Some(node));
                    assert(b.graph.nodes[node].commit == c && b.graph.nodes[node].delta == d - 1);
                    assert(b.graph.nodes[i].commit == a.graph.nodes[i].commit);
                }
            }
        }
    } else if c > 0 {
        lemma_links_follow(paths, commits, c - 1, commits[c - 1].deltas.len() as int);
        lemma_state_at_next_commit(paths, commits, c - 1);
    } else {
        lemma_state_at_start(paths, commits);
    }
}

/// Some change of the stream gives a file the name `name`.
pub open spec fn touched(commits: Seq<CommitView>, name: Seq<char>) -> bool {
    exists|x: int, y: int| in_stream(commits, x, y) && #[trigger] path_at(commits, x, y) == name
}

/// **The heads.** A name has a head in the history exactly if it was
/// requested and some change of the stream has it; the head is then the node
/// of the first such change, the newest.
pub proof fn law_heads(paths: Set<Seq<char>>, commits: Seq<CommitView>, name: Seq<char>)
    ensures
        history(paths, commits).heads.contains_key(name) <==> paths.contains(name) && touched(
            commits,
            name,
        ),
        history(paths, commits).heads.contains_key(name) ==> {
            let g = history(paths, commits);
            let n = g.nodes[g.heads[name]];
            &&& 0 <= g.heads[name] < g.nodes.len()
            &&& in_stream(commits, n.commit, n.delta)
            &&& path_at(commits, n.commit, n.delta) == name
            &&& untouched_before(commits, name, n.commit, n.delta)
        },
{
    let end = commits.len() as int;
    let g = history(paths, commits);
    lemma_state_at_end(paths, commits);
    lemma_heads_sound(paths, commits, end, 0);
    lemma_origins_ordered(paths, commits, end, 0);
    if touched(commits, name) {
        let (x, y) = choose|x: int, y: int|
            in_stream(commits, x, y) && #[trigger] path_at(commits, x, y) == name;
        assert(precedes(x, y, end, 0));
        assert(!untouched_before(commits, name, end, 0));
    }
    if g.heads.contains_key(name) {
        let n = g.nodes[g.heads[name]];
        assert(in_stream(commits, n.commit, n.delta));
    }
}

/// **The watched names.** At every cut the builder watches a name exactly
/// if the name was requested and no change has had it yet, or the file of
/// some node had the name before the node's change and no change has had the
/// name since.
pub proof fn law_watched_names(
    paths: Set<Seq<char>>,
    commits: Seq<CommitView>,
    c: int,
    d: int,
    name: Seq<char>,
)
    requires
        is_cut(commits, c, d),
    ensures
        state_at(paths, commits, c, d).pending.contains_key(name) <==> (paths.contains(name)
            && untouched_before(commits, name, c, d)) || (exists|i: int|
            0 <= i < state_at(paths, commits, c, d).graph.nodes.len() && awaited_name(
                commits,
                #[trigger] state_at(paths, commits, c, d).graph.nodes[i],
            ) == Some(name) && untouched_between(
                commits,
                name,
                state_at(paths, commits, c, d).graph.nodes[i].commit,
                state_at(paths, commits, c, d).graph.nodes[i].delta,
                c,
                d,
            )),
{
    let b = state_at(paths, commits, c, d);
    lemma_state_at_wf(paths, commits, c, d);
    lemma_heads_sound(paths, commits, c, d);
    lemma_waiters_wait(paths, commits, c, d);
    lemma_unlinked_wait(paths, commits, c, d);
    lemma_links_follow(paths, commits, c, d);
    lemma_origins_ordered(paths, commits, c, d);
    if b.pending.contains_key(name) {
        if !(paths.contains(name) && untouched_before(commits, name, c, d)) {
            let i = b.pending[name][0];
            let n = b.graph.nodes[i];
            assert(awaited_name(commits, n) == Some(name));
            assert(untouched_between(commits, name, n.commit, n.delta, c, d));
        }
    }
    if exists|i: int|
        0 <= i < b.graph.nodes.len() && awaited_name(commits, #[trigger] b.graph.nodes[i]) == Some(
            name,
        ) && untouched_between(commits, name, b.graph.nodes[i].commit, b.graph.nodes[i].delta, c, d) {
        let i = choose|i: int|
            0 <= i < b.graph.nodes.len() && awaited_name(commits, #[trigger] b.graph.nodes[i])
                == Some(name) && untouched_between(
                commits,
                name,
                b.graph.nodes[i].commit,
                b.graph.nodes[i].delta,
                c,
                d,
            );
        let n = b.graph.nodes[i];
        if n.previous is Some {
            let j = n.previous.unwrap();
            let m = b.graph.nodes[j];
            assert(i < j < b.graph.nodes.len());
            assert(path_at(commits, m.commit, m.delta) == name);
            assert(in_stream(commits, m.commit, m.delta));
            assert(false);
        }
    }
}

/// **Links follow names.** In the history, the `previous` of a node is the
/// node of the next change, further down the stream, to the name that the
/// node's file had before the node's change; and a node has no `previous`
/// exactly if its file had no name before, or no change further down the
/// stream has that name.
pub proof fn law_previous_is_next_change(
    paths: Set<Seq<char>>,
    commits: Seq<CommitView>,
    i: int,
)
    requires
        0 <= i < history(paths, commits).nodes.len(),
    ensures
        ({
            let g = history(paths, commits);
            let n = g.nodes[i];
            match n.previous {
                Some(j) => {
                    let m = g.nodes[j];
                    &&& i < j < g.nodes.len()
                    &&& precedes(n.commit, n.delta, m.commit, m.delta)
                    &&& awaited_name(commits, n) == Some(path_at(commits, m.commit, m.delta))
                    &&& untouched_between(
                        commits,
                        path_at(commits, m.commit, m.delta),
                        n.commit,
                        n.delta,
                        m.commit,
                        m.delta,
                    )
                },
                None => awaited_name(commits, n) is Some ==> untouched_between(
                    commits,
                    awaited_name(commits, n).unwrap(),
                    n.commit,
                    n.delta,
                    commits.len() as int,
                    0,
                ),
            }
        }),
{
    let end = commits.len() as int;
    let g = history(paths, commits);
    let b = state_at(paths, commits, end, 0);
    lemma_state_at_end(paths, commits);
    lemma_state_at_wf(paths, commits, end, 0);
    lemma_origins_ordered(paths, commits, end, 0);
    lemma_links_follow(paths, commits, end, 0);
    lemma_waiters_wait(paths, commits, end, 0);
    lemma_unlinked_wait(paths, commits, end, 0);
    let n = g.nodes[i];
    if n.previous is None && awaited_name(commits, n) is Some {
        let p = awaited_name(commits, n).unwrap();
        assert(b.pending[p].contains(i));
        let k = choose|k: int| 0 <= k < b.pending[p].len() && b.pending[p][k] == i;
        assert(b.graph.nodes[b.pending[p][k]] == n);
    }
}

/// **Filter preserves topology.** Two histories of the same names through
/// the same commits have the same shape, whatever their visitors and their
/// filters: the same nodes, made by the same changes, with the same links,
/// and the same heads. A filter decides only whether a node carries data.
pub proof fn law_filter_preserves_topology<T1, V1, F1, T2, V2, F2>(
    a: HistoryTree<T1>,
    v1: V1,
    f1: F1,
    b: HistoryTree<T2>,
    v2: V2,
    f2: F2,
    paths: Set<Seq<char>>,
    commits: Seq<ParsedCommit>,
) where
    V1: Fn(&ParsedCommit) -> T1,
    F1: Fn(&ParsedCommit) -> bool,
    V2: Fn(&ParsedCommit) -> T2,
    F2: Fn(&ParsedCommit) -> bool,

    requires
        a.is_history_of(paths, v1, f1, commits),
        b.is_history_of(paths, v2, f2, commits),
    ensures
        a@ == b@,
        forall|i: int|
            0 <= i < a@.nodes.len() ==> (#[trigger] a.data(i) is None ==> call_ensures(
                f1,
                (&commits[a@.nodes[i].commit],),
                false,
            )),
        forall|i: int|
            0 <= i < a@.nodes.len() ==> (#[trigger] a.data(i) is Some ==> call_ensures(
                f1,
                (&commits[a@.nodes[i].commit],),
                true,
            )),
{
}

/// **Idempotence.** Two histories of the same names through the same
/// commits, made with the same visitor and filter, have the same shape; and
/// where the visitor and the filter give one answer for each commit, the
/// nodes carry the same data.
pub proof fn law_idempotent<T, V, F>(
    a: HistoryTree<T>,
    b: HistoryTree<T>,
    v: V,
    f: F,
    paths: Set<Seq<char>>,
    commits: Seq<ParsedCommit>,
) where V: Fn(&ParsedCommit) -> T, F: Fn(&ParsedCommit) -> bool
    requires
        a.is_history_of(paths, v, f, commits),
        b.is_history_of(paths, v, f, commits),
    ensures
        a@ == b@,
        (forall|c: ParsedCommit, x: bool, y: bool|
            call_ensures(f, (&c,), x) && call_ensures(f, (&c,), y) ==> x == y) && (forall|
            c: ParsedCommit,
            x: T,
            y: T,
        |
            call_ensures(v, (&c,), x) && call_ensures(v, (&c,), y) ==> x == y) ==> forall|i: int|
            0 <= i < a@.nodes.len() ==> #[trigger] a.data(i) == b.data(i),
{
    if (forall|c: ParsedCommit, x: bool, y: bool|
        call_ensures(f, (&c,), x) && call_ensures(f, (&c,), y) ==> x == y) && (forall|
        c: ParsedCommit,
        x: T,
        y: T,
    |
        call_ensures(v, (&c,), x) && call_ensures(v, (&c,), y) ==> x == y) {
        assert forall|i: int| 0 <= i < a@.nodes.len() implies #[trigger] a.data(i) == b.data(i) by {
            let c = commits[a@.nodes[i].commit];
            assert(a@.nodes[i] == b@.nodes[i]);
            match (a.data(i), b.data(i)) {
                (Some(x), Some(y)) => {
                    assert(call_ensures(v, (&c,), *x) && call_ensures(v, (&c,), *y));
                },
                (Some(_), None) => {
                    assert(call_ensures(f, (&c,), true) && call_ensures(f, (&c,), false));
                },
                (None, Some(_)) => {
                    assert(call_ensures(f, (&c,), true) && call_ensures(f, (&c,), false));
                },
                (None, None) => {},
            }
        }
    }
}

} // verus!
