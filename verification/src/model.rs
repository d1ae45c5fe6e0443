//! The history of a set of files as mathematics: what the builder computes,
//! stated as a function of the watched names and of the commits.
//!
//! Commits are taken newest first, and within a commit the changes in their
//! listed order. The builder keeps, for every name that it watches, the nodes
//! that wait for the next older change under that name. A change to a watched
//! name makes a node, becomes the `previous` of every node that waited for that
//! name, and then waits itself: under the same name after a modification, under
//! the old name after a rename or a copy, and nowhere after an addition or a
//! deletion.

use crate::types::{Change, CommitView, DeltaView};
use vstd::prelude::*;

verus! {

/// One node of the history: a change to a watched file.
pub struct NodeModel {
    /// The node of the next older change to the same file, once it is known.
    pub previous: Option<int>,
    /// The index, in the stream, of the commit that made the change.
    pub commit: int,
    /// The index of the change among those of its commit.
    pub delta: int,
}

/// A history: its nodes in the order in which they were made, and the newest
/// node of each requested name for which one was found.
#[verifier::ext_equal]
pub struct Graph {
    pub nodes: Seq<NodeModel>,
    /// From a requested name to the index of its newest node.
    pub heads: Map<Seq<char>, int>,
    /// The names in `heads`, in the order in which they got their node.
    pub order: Seq<Seq<char>>,
}

/// The builder between two changes.
#[verifier::ext_equal]
pub struct Building {
    pub graph: Graph,
    /// From each watched name to the nodes that wait for an older change
    /// under that name, in the order in which they began to wait.
    pub pending: Map<Seq<char>, Seq<int>>,
}

/// The builder before the first commit: it watches the requested names, and
/// nothing waits.
pub open spec fn initial(paths: Set<Seq<char>>) -> Building {
    Building {
        graph: Graph { nodes: Seq::empty(), heads: Map::empty(), order: Seq::empty() },
        pending: Map::new(|p: Seq<char>| paths.contains(p), |p: Seq<char>| Seq::empty()),
    }
}

/// The name under which the file was known before the change, if it existed
/// then and the change says so.
pub open spec fn earlier_name(d: DeltaView) -> Option<Seq<char>> {
    match d.change {
        Change::Modified => Some(d.path),
        Change::Added | Change::Deleted => None,
        Change::Renamed { .. } | Change::Copied { .. } => Some(d.from),
    }
}

/// The nodes that wait under `name`; none if the name is not watched.
pub open spec fn waiting(pending: Map<Seq<char>, Seq<int>>, name: Seq<char>) -> Seq<int> {
    if pending.contains_key(name) {
        pending[name]
    } else {
        Seq::empty()
    }
}

/// `nodes` with `to` as the `previous` of each of `waiters`.
pub open spec fn linked(nodes: Seq<NodeModel>, waiters: Seq<int>, to: int) -> Seq<NodeModel> {
    Seq::new(
        nodes.len(),
        |i: int|
            if waiters.contains(i) {
                NodeModel { previous: Some(to), ..nodes[i] }
            } else {
                nodes[i]
            },
    )
}

/// `pending` with `node` added to those that wait under `name`, which is
/// watched from now on.
pub open spec fn registered(pending: Map<Seq<char>, Seq<int>>, name: Seq<char>, node: int) -> Map<
    Seq<char>,
    Seq<int>,
> {
    pending.insert(name, waiting(pending, name).push(node))
}

/// One change, the one with index `delta` in the commit with index `commit`.
/// A change to a name that is not watched does nothing.
pub open spec fn apply_delta(
    b: Building,
    paths: Set<Seq<char>>,
    commit: int,
    delta: int,
    d: DeltaView,
) -> Building {
    if !b.pending.contains_key(d.path) {
        b
    } else {
        let node = b.graph.nodes.len() as int;
        let nodes = linked(b.graph.nodes, b.pending[d.path], node).push(
            NodeModel { previous: None, commit, delta },
        );
        let anchors = paths.contains(d.path) && !b.graph.heads.contains_key(d.path);
        let heads = if anchors {
            b.graph.heads.insert(d.path, node)
        } else {
            b.graph.heads
        };
        let order = if anchors {
            b.graph.order.push(d.path)
        } else {
            b.graph.order
        };
        let rest = b.pending.remove(d.path);
        let pending = match earlier_name(d) {
            Some(name) => registered(rest, name, node),
            None => rest,
        };
        Building { graph: Graph { nodes, heads, order }, pending }
    }
}

/// The changes of one commit, in their listed order.
pub open spec fn apply_deltas(
    b: Building,
    paths: Set<Seq<char>>,
    commit: int,
    deltas: Seq<DeltaView>,
) -> Building
    decreases deltas.len(),
{
    if deltas.len() == 0 {
        b
    } else {
        apply_delta(
            apply_deltas(b, paths, commit, deltas.drop_last()),
            paths,
            commit,
            deltas.len() - 1,
            deltas.last(),
        )
    }
}

/// The builder after a stream of commits, the newest first.
pub open spec fn apply_commits(paths: Set<Seq<char>>, commits: Seq<CommitView>) -> Building
    decreases commits.len(),
{
    if commits.len() == 0 {
        initial(paths)
    } else {
        apply_deltas(
            apply_commits(paths, commits.drop_last()),
            paths,
            commits.len() - 1,
            commits.last().deltas,
        )
    }
}

/// The history of the files `paths` through `commits`.
pub open spec fn history(paths: Set<Seq<char>>, commits: Seq<CommitView>) -> Graph {
    apply_commits(paths, commits).graph
}

/// The nodes of `g` from `start` back in time: `start`, its `previous`, and
/// so on to a node that has none.
pub open spec fn chain(g: Graph, start: int) -> Seq<int>
    decreases g.nodes.len() - start,
{
    if 0 <= start < g.nodes.len() {
        match g.nodes[start].previous {
            Some(next) => if start < next < g.nodes.len() {
                seq![start] + chain(g, next)
            } else {
                seq![start]
            },
            None => seq![start],
        }
    } else {
        Seq::empty()
    }
}

impl Graph {
    /// Every link leads to a node that was made later, every head is a node,
    /// and `order` lists the names that have a head, each once.
    pub open spec fn wf(self) -> bool {
        &&& forall|i: int|
            0 <= i < self.nodes.len() && (#[trigger] self.nodes[i]).previous is Some ==> i
                < self.nodes[i].previous.unwrap() < self.nodes.len()
        &&& forall|p: Seq<char>|
            self.heads.contains_key(p) ==> 0 <= #[trigger] self.heads[p] < self.nodes.len()
        &&& forall|k: int| 0 <= k < self.order.len() ==> self.heads.contains_key(#[trigger] self.order[k])
        &&& forall|p: Seq<char>| #[trigger]
            self.heads.contains_key(p) ==> exists|k: int|
                0 <= k < self.order.len() && #[trigger] self.order[k] == p
        &&& forall|j: int, k: int|
            0 <= j < k < self.order.len() ==> #[trigger] self.order[j] != #[trigger] self.order[k]
    }
}

impl Building {
    /// The graph is well formed; every node that waits exists, has no
    /// `previous` yet, and waits in one place only.
    pub open spec fn wf(self) -> bool {
        &&& self.graph.wf()
        &&& forall|p: Seq<char>, k: int|
            self.pending.contains_key(p) && 0 <= k < self.pending[p].len() ==> {
                &&& 0 <= #[trigger] self.pending[p][k] < self.graph.nodes.len()
                &&& self.graph.nodes[self.pending[p][k]].previous is None
            }
        &&& forall|p: Seq<char>, k: int, q: Seq<char>, l: int|
            self.pending.contains_key(p) && 0 <= k < self.pending[p].len()
                && self.pending.contains_key(q) && 0 <= l < self.pending[q].len() && (p != q || k
                != l) ==> #[trigger] self.pending[p][k] != #[trigger] self.pending[q][l]
    }
}

/// One change keeps the builder well formed.
pub proof fn lemma_apply_delta_wf(
    b: Building,
    paths: Set<Seq<char>>,
    commit: int,
    delta: int,
    d: DeltaView,
)
    requires
        b.wf(),
    ensures
        apply_delta(b, paths, commit, delta, d).wf(),
{
    let a = apply_delta(b, paths, commit, delta, d);
    if b.pending.contains_key(d.path) {
        let node = b.graph.nodes.len() as int;
        let waiters = b.pending[d.path];
        let rest = b.pending.remove(d.path);
        assert forall|i: int|
            0 <= i < a.graph.nodes.len() && (#[trigger] a.graph.nodes[i]).previous is Some implies i
            < a.graph.nodes[i].previous.unwrap() < a.graph.nodes.len() by {
            if i < node {
                if waiters.contains(i) {
                } else {
                    assert(a.graph.nodes[i] == b.graph.nodes[i]);
                }
            }
        }
        assert forall|p: Seq<char>| #[trigger] a.graph.heads.contains_key(p) implies exists|k: int|
            0 <= k < a.graph.order.len() && #[trigger] a.graph.order[k] == p by {
            if b.graph.heads.contains_key(p) {
                let k = choose|k: int| 0 <= k < b.graph.order.len() && #[trigger] b.graph.order[k] == p;
                assert(a.graph.order[k] == p);
            } else {
                assert(a.graph.order[b.graph.order.len() as int] == p);
            }
        }
        assert forall|p: Seq<char>, k: int|
            a.pending.contains_key(p) && 0 <= k < a.pending[p].len() implies 0
            <= #[trigger] a.pending[p][k] < a.graph.nodes.len()
            && a.graph.nodes[a.pending[p][k]].previous is None by {
            let w = a.pending[p][k];
            if w != node {
                assert(rest.contains_key(p) && rest[p][k] == w);
                assert(b.pending[p][k] == w);
                if waiters.contains(w) {
                    let l = choose|l: int| 0 <= l < waiters.len() && waiters[l] == w;
                    assert(b.pending[d.path][l] == w);
                }
            }
        }
        assert forall|p: Seq<char>, k: int, q: Seq<char>, l: int|
            a.pending.contains_key(p) && 0 <= k < a.pending[p].len() && a.pending.contains_key(q)
                && 0 <= l < a.pending[q].len() && (p != q || k != l) implies #[trigger] a.pending[p][k]
            != #[trigger] a.pending[q][l] by {
            let v = a.pending[p][k];
            let w = a.pending[q][l];
            if v != node {
                assert(b.pending[p][k] == v);
            }
            if w != node {
                assert(b.pending[q][l] == w);
            }
        }
    }
}

/// The changes of a commit keep the builder well formed.
pub proof fn lemma_apply_deltas_wf(
    b: Building,
    paths: Set<Seq<char>>,
    commit: int,
    deltas: Seq<DeltaView>,
)
    requires
        b.wf(),
    ensures
        apply_deltas(b, paths, commit, deltas).wf(),
    decreases deltas.len(),
{
    if deltas.len() > 0 {
        lemma_apply_deltas_wf(b, paths, commit, deltas.drop_last());
        lemma_apply_delta_wf(
            apply_deltas(b, paths, commit, deltas.drop_last()),
            paths,
            commit,
            deltas.len() - 1,
            deltas.last(),
        );
    }
}

/// The builder is well formed after any stream of commits.
pub proof fn lemma_apply_commits_wf(paths: Set<Seq<char>>, commits: Seq<CommitView>)
    ensures
        apply_commits(paths, commits).wf(),
    decreases commits.len(),
{
    if commits.len() > 0 {
        lemma_apply_commits_wf(paths, commits.drop_last());
        lemma_apply_deltas_wf(
            apply_commits(paths, commits.drop_last()),
            paths,
            commits.len() - 1,
            commits.last().deltas,
        );
    }
}

/// One change adds at most one node, which bears the change's place in the
/// stream, and leaves the places of the other nodes as they are.
pub proof fn lemma_apply_delta_nodes(
    b: Building,
    paths: Set<Seq<char>>,
    commit: int,
    delta: int,
    d: DeltaView,
)
    ensures
        b.graph.nodes.len() <= apply_delta(b, paths, commit, delta, d).graph.nodes.len()
            <= b.graph.nodes.len() + 1,
        forall|i: int|
            0 <= i < b.graph.nodes.len() ==> {
                let n = #[trigger] apply_delta(b, paths, commit, delta, d).graph.nodes[i];
                n.commit == b.graph.nodes[i].commit && n.delta == b.graph.nodes[i].delta
            },
        forall|i: int|
            b.graph.nodes.len() <= i < apply_delta(b, paths, commit, delta, d).graph.nodes.len() ==> {
                let n = #[trigger] apply_delta(b, paths, commit, delta, d).graph.nodes[i];
                n.commit == commit && n.delta == delta
            },
{
}

/// The changes of a commit add nodes that bear the commit's index, and leave
/// the places of the other nodes as they are.
pub proof fn lemma_apply_deltas_nodes(
    b: Building,
    paths: Set<Seq<char>>,
    commit: int,
    deltas: Seq<DeltaView>,
)
    ensures
        b.graph.nodes.len() <= apply_deltas(b, paths, commit, deltas).graph.nodes.len(),
        forall|i: int|
            0 <= i < b.graph.nodes.len() ==> {
                let n = #[trigger] apply_deltas(b, paths, commit, deltas).graph.nodes[i];
                n.commit == b.graph.nodes[i].commit && n.delta == b.graph.nodes[i].delta
            },
        forall|i: int|
            b.graph.nodes.len() <= i < apply_deltas(b, paths, commit, deltas).graph.nodes.len() ==> {
                let n = #[trigger] apply_deltas(b, paths, commit, deltas).graph.nodes[i];
                n.commit == commit && 0 <= n.delta < deltas.len()
            },
    decreases deltas.len(),
{
    if deltas.len() > 0 {
        let before = apply_deltas(b, paths, commit, deltas.drop_last());
        lemma_apply_deltas_nodes(b, paths, commit, deltas.drop_last());
        lemma_apply_delta_nodes(before, paths, commit, deltas.len() - 1, deltas.last());
    }
}

/// A change leaves a node that has a `previous` as it is.
pub proof fn lemma_apply_delta_keeps_links(
    b: Building,
    paths: Set<Seq<char>>,
    commit: int,
    delta: int,
    d: DeltaView,
    i: int,
)
    requires
        b.wf(),
        0 <= i < b.graph.nodes.len(),
        b.graph.nodes[i].previous is Some,
    ensures
        apply_delta(b, paths, commit, delta, d).graph.nodes[i] == b.graph.nodes[i],
{
    if b.pending.contains_key(d.path) {
        let waiters = b.pending[d.path];
        if waiters.contains(i) {
            let k = choose|k: int| 0 <= k < waiters.len() && waiters[k] == i;
            assert(b.pending[d.path][k] == i);
        }
    }
}

/// In a well-formed graph the chain from a node begins with that node, each
/// of its nodes is the `previous` of the one before, the last has none, and
/// the indices grow along it: no node comes twice.
pub proof fn lemma_chain(g: Graph, start: int)
    requires
        g.wf(),
        0 <= start < g.nodes.len(),
    ensures
        chain(g, start).len() >= 1,
        chain(g, start)[0] == start,
        forall|k: int|
            0 <= k < chain(g, start).len() ==> start <= #[trigger] chain(g, start)[k]
                < g.nodes.len(),
        forall|k: int|
            0 <= k < chain(g, start).len() - 1 ==> g.nodes[#[trigger] chain(g, start)[k]].previous
                == Some(chain(g, start)[k + 1]),
        g.nodes[chain(g, start).last()].previous is None,
        forall|j: int, k: int|
            0 <= j < k < chain(g, start).len() ==> #[trigger] chain(g, start)[j]
                < #[trigger] chain(g, start)[k],
    decreases g.nodes.len() - start,
{
    let c = chain(g, start);
    match g.nodes[start].previous {
        Some(next) => {
            assert(g.nodes[start].previous is Some);
            assert(start < next < g.nodes.len());
            lemma_chain(g, next);
            let rest = chain(g, next);
            assert(c =~= seq![start] + rest);
            assert forall|k: int| 0 <= k < c.len() - 1 implies g.nodes[#[trigger] c[k]].previous
                == Some(c[k + 1]) by {
                if k > 0 {
                    assert(c[k] == rest[k - 1]);
                    assert(c[k + 1] == rest[k]);
                }
            }
            assert forall|j: int, k: int| 0 <= j < k < c.len() implies #[trigger] c[j]
                < #[trigger] c[k] by {
                assert(c[k] == rest[k - 1]);
                if j > 0 {
                    assert(c[j] == rest[j - 1]);
                }
            }
            assert(c.last() == rest.last());
        },
        None => {},
    }
}

} // verus!
