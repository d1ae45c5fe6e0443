//! Builds the history of a set of files from a stream of commits, following
//! each file through renames and copies, as `git log --follow` does for one.
//!
//! The commits come newest first. For every change to a watched name the
//! builder makes a node, links the nodes that waited for that name to it, and
//! lets the new node wait for the name that the file had before the change.
//! A rename or a copy thereby moves the watch to the old name. The result maps
//! each requested name to the node of its newest change; from there `previous`
//! leads back in time.
//!
//! A rename is a change even where the contents stayed the same, as it is for
//! `git log --follow`.

use crate::model::{
    apply_commits, apply_delta, apply_deltas, chain, history, initial, lemma_apply_delta_wf,
    lemma_apply_deltas_nodes, linked, registered, waiting, Building, Graph, NodeModel,
};
use crate::parsing::{commit_views, ParsedCommit};
use crate::paths::PathSet;
use crate::types::{Change, HistoryNode};
use std::rc::Rc;
use vstd::hash_map::StringHashMap;
use vstd::prelude::*;
use vstd::string::*;

verus! {

/// A link between nodes, as the model has it.
pub open spec fn link_view(previous: Option<usize>) -> Option<int> {
    match previous {
        Some(j) => Some(j as int),
        None => None,
    }
}

/// Node indices, as the model has them.
pub open spec fn ids(nodes: Seq<usize>) -> Seq<int> {
    nodes.map_values(|i: usize| i as int)
}

/// The heads of a tree, as the model has them.
pub open spec fn heads_view(heads: Map<Seq<char>, usize>) -> Map<Seq<char>, int> {
    heads.map_values(|h: usize| h as int)
}

/// The waiting nodes of a builder, as the model has them.
pub open spec fn pending_view(pending: Map<Seq<char>, Vec<usize>>) -> Map<Seq<char>, Seq<int>> {
    pending.map_values(|w: Vec<usize>| ids(w@))
}

/// The views of a run of names.
pub open spec fn name_views(names: Seq<String>) -> Seq<Seq<char>> {
    names.map_values(|n: String| n@)
}

/// The history of a set of files: one node per change, and for each requested
/// file that has any the node of its newest change.
///
/// Nodes are named by their index. They are numbered in the order in which
/// they were made, so a node's `previous` has a larger index than the node.
pub struct HistoryTree<T> {
    nodes: Vec<HistoryNode<T>>,
    heads: StringHashMap<usize>,
    names: Vec<String>,
    origins: Ghost<Seq<(int, int)>>,
}

impl<T> View for HistoryTree<T> {
    type V = Graph;

    closed spec fn view(&self) -> Graph {
        Graph {
            nodes: Seq::new(
                self.nodes@.len(),
                |i: int|
                    NodeModel {
                        previous: link_view(self.nodes@[i].previous),
                        commit: self.origins@[i].0,
                        delta: self.origins@[i].1,
                    },
            ),
            heads: heads_view(self.heads@),
            order: name_views(self.names@),
        }
    }
}

impl<T> HistoryTree<T> {
    /// The graph is well formed.
    pub closed spec fn wf(&self) -> bool {
        &&& self.origins@.len() == self.nodes@.len()
        &&& self@.wf()
    }

    /// What the node with index `i` carries.
    pub closed spec fn data(&self, i: int) -> Option<Rc<T>> {
        self.nodes@[i].data
    }

    /// The graph of a well-formed tree is well formed.
    pub proof fn lemma_wf(&self)
        requires
            self.wf(),
        ensures
            self@.wf(),
    {
    }

    /// The tree is a history of `paths` through `commits` with the visitor
    /// `v` and the filter `f`: its shape is `history(paths, commits)`, and
    /// each node carries what `v` and `f` make of the node's commit.
    pub open spec fn is_history_of<V, F>(
        &self,
        paths: Set<Seq<char>>,
        v: V,
        f: F,
        commits: Seq<ParsedCommit>,
    ) -> bool where V: Fn(&ParsedCommit) -> T, F: Fn(&ParsedCommit) -> bool {
        &&& self.wf()
        &&& self@ == history(paths, commit_views(commits))
        &&& forall|i: int|
            0 <= i < self@.nodes.len() ==> 0 <= (#[trigger] self@.nodes[i]).commit < commits.len()
                && produced_by(v, f, commits[self@.nodes[i].commit], self.data(i))
        &&& forall|i: int, j: int|
            0 <= i < self@.nodes.len() && 0 <= j < self@.nodes.len() && (
            #[trigger] self@.nodes[i]).commit == (#[trigger] self@.nodes[j]).commit ==> self.data(i)
                == self.data(j)
    }

    /// The tree without nodes.
    pub fn new() -> (tree: HistoryTree<T>)
        ensures
            tree.wf(),
            tree@ == initial(Set::empty()).graph,
    {
        let tree = HistoryTree {
            nodes: Vec::new(),
            heads: StringHashMap::new(),
            names: Vec::new(),
            origins: Ghost(Seq::empty()),
        };
        assert(tree@ =~= initial(Set::empty()).graph);
        tree
    }

    /// The number of nodes.
    pub fn len(&self) -> (n: usize)
        ensures
            n == self@.nodes.len(),
    {
        self.nodes.len()
    }

    /// Whether the tree has no node.
    pub fn is_empty(&self) -> (empty: bool)
        ensures
            empty == (self@.nodes.len() == 0),
    {
        self.nodes.len() == 0
    }

    /// Whether a change to `path` was found.
    pub fn contains_key(&self, path: &str) -> (found: bool)
        ensures
            found == self@.heads.contains_key(path@),
    {
        self.heads.contains_key(path)
    }

    /// The node of the newest change to `path`, if one was found.
    pub fn get(&self, path: &str) -> (head: Option<usize>)
        ensures
            match head {
                Some(h) => self@.heads.contains_key(path@) && self@.heads[path@] == h,
                None => !self@.heads.contains_key(path@),
            },
    {
        match self.heads.get(path) {
            Some(h) => Some(*h),
            None => None,
        }
    }

    /// The node with index `id`.
    pub fn node(&self, id: usize) -> (n: &HistoryNode<T>)
        requires
            id < self@.nodes.len(),
        ensures
            link_view(n.previous) == self@.nodes[id as int].previous,
            n.data == self.data(id as int),
    {
        &self.nodes[id]
    }

    /// The node with index `id`, if there is one.
    pub fn get_node(&self, id: usize) -> (n: Option<&HistoryNode<T>>)
        ensures
            match n {
                Some(n) => id < self@.nodes.len() && link_view(n.previous) == self@.nodes[id as int].previous
                    && n.data == self.data(id as int),
                None => id >= self@.nodes.len(),
            },
    {
        if id < self.nodes.len() {
            Some(&self.nodes[id])
        } else {
            None
        }
    }

    /// The names that have a node, in the order in which they got it.
    pub fn paths(&self) -> (names: &Vec<String>)
        ensures
            name_views(names@) == self@.order,
    {
        &self.names
    }

    /// The changes to `path` from the newest to the oldest, as node indices;
    /// empty if no change to `path` was found.
    pub fn chain(&self, path: &str) -> (nodes: Vec<usize>)
        requires
            self.wf(),
        ensures
            ids(nodes@) == if self@.heads.contains_key(path@) {
                chain(self@, self@.heads[path@])
            } else {
                Seq::empty()
            },
    {
        let mut nodes: Vec<usize> = Vec::new();
        let head = match self.heads.get(path) {
            Some(h) => *h,
            None => {
                assert(ids(nodes@) =~= Seq::empty());
                return nodes;
            },
        };
        let mut at: usize = head;
        nodes.push(at);
        assert(ids(nodes@) =~= seq![head as int]);
        loop
            invariant
                self.wf(),
                at < self.nodes@.len(),
                nodes@.len() > 0,
                ids(nodes@).drop_last() + chain(self@, at as int) == chain(self@, head as int),
                nodes@.last() == at,
            ensures
                ids(nodes@) == chain(self@, head as int),
            decreases self.nodes@.len() - at,
        {
            match self.nodes[at].previous {
                Some(next) => {
                    assert(self@.nodes[at as int].previous == Some(next as int));
                    let ghost before = ids(nodes@);
                    nodes.push(next);
                    proof {
                        assert(ids(nodes@).drop_last() =~= before);
                        assert(before =~= before.drop_last() + seq![at as int]);
                        assert(before.drop_last() + (seq![at as int] + chain(self@, next as int))
                            =~= before + chain(self@, next as int));
                    }
                    at = next;
                },
                None => {
                    assert(self@.nodes[at as int].previous is None);
                    assert(chain(self@, at as int) =~= seq![at as int]);
                    assert(ids(nodes@) =~= ids(nodes@).drop_last() + seq![at as int]);
                    break;
                },
            }
        }
        nodes
    }
}

/// Hands out another pointer to a shared value with `Rc::clone`, which makes
/// no copy of the value: the result points to the same allocation.
#[verifier::external_body]
fn share<T>(data: &Rc<T>) -> (r: Rc<T>)
    ensures
        r == *data,
{
    Rc::clone(data)
}

/// What a visitor `v` and a filter `f` can have made of the commit `c`:
/// nothing where the filter said no, and what the visitor returned where it
/// said yes.
pub open spec fn produced_by<T, V, F>(v: V, f: F, c: ParsedCommit, data: Option<Rc<T>>) -> bool where
    V: Fn(&ParsedCommit) -> T,
    F: Fn(&ParsedCommit) -> bool,
 {
    match data {
        Some(d) => call_ensures(f, (&c,), true) && call_ensures(v, (&c,), *d),
        None => call_ensures(f, (&c,), false),
    }
}

/// The visitor `v` and the filter `f` can be called on the commit `c`.
pub open spec fn accepts<T, V, F>(v: V, f: F, c: ParsedCommit) -> bool where
    V: Fn(&ParsedCommit) -> T,
    F: Fn(&ParsedCommit) -> bool,
 {
    call_requires(v, (&c,)) && call_requires(f, (&c,))
}

/// What the builder holds while it walks through the commits.
pub struct HistoryState<'a, T, V, F> {
    /// The tree that will be returned.
    history: HistoryTree<T>,
    /// For each watched name, the nodes whose `previous` will be the next
    /// node made for that name.
    pending_edges: StringHashMap<Vec<usize>>,
    /// The names that the caller asked for: only they get a head.
    path_set: &'a PathSet,
    /// Makes a node's data from a commit.
    visitor: V,
    /// Says whether a commit's nodes get data.
    filter: F,
    /// The number of commits taken so far.
    seen: Ghost<int>,
}

impl<'a, T, V, F> View for HistoryState<'a, T, V, F> {
    type V = Building;

    closed spec fn view(&self) -> Building {
        Building { graph: self.history@, pending: pending_view(self.pending_edges@) }
    }
}

impl<'a, T, V, F> HistoryState<'a, T, V, F> where
    V: Fn(&ParsedCommit) -> T,
    F: Fn(&ParsedCommit) -> bool,
 {
    /// The names that the caller asked for.
    pub closed spec fn paths(&self) -> Set<Seq<char>> {
        self.path_set@
    }

    /// The number of commits taken so far.
    pub closed spec fn seen(&self) -> int {
        self.seen@
    }

    /// The caller's visitor.
    pub closed spec fn visitor(&self) -> V {
        self.visitor
    }

    /// The caller's filter.
    pub closed spec fn filter(&self) -> F {
        self.filter
    }

    /// What the node with index `i` carries.
    pub closed spec fn data(&self, i: int) -> Option<Rc<T>> {
        self.history.data(i)
    }

    /// The builder's model is well formed.
    pub closed spec fn wf(&self) -> bool {
        &&& self.path_set.wf()
        &&& self.history.origins@.len() == self.history.nodes@.len()
        &&& self.seen@ >= 0
        &&& self@.wf()
    }

    /// `other` has the same names, visitor, filter and count of commits.
    spec fn same_setup(&self, other: &Self) -> bool {
        &&& self.path_set == other.path_set
        &&& self.visitor == other.visitor
        &&& self.filter == other.filter
        &&& self.seen == other.seen
    }

    /// A builder that watches the names in `set` and has taken no commit.
    pub fn new(set: &'a PathSet, vis: V, fil: F) -> (state: Self)
        requires
            set.wf(),
        ensures
            state.wf(),
            state@ == initial(set@),
            state.paths() == set@,
            state.seen() == 0,
            state.visitor() == vis,
            state.filter() == fil,
    {
        let mut pending: StringHashMap<Vec<usize>> = StringHashMap::new();
        let mut i: usize = 0;
        while i < set.len()
            invariant
                i <= set.listing().len(),
                forall|p: Seq<char>|
                    pending@.contains_key(p) <==> exists|k: int|
                        0 <= k < i && #[trigger] set.listing()[k] == p,
                forall|p: Seq<char>| pending@.contains_key(p) ==> (#[trigger] pending@[p])@.len() == 0,
            decreases set.listing().len() - i,
        {
            let ghost before = pending@;
            pending.insert(set.get(i).clone(), Vec::new());
            proof {
                assert forall|p: Seq<char>| pending@.contains_key(p) implies exists|k: int|
                    0 <= k < i + 1 && #[trigger] set.listing()[k] == p by {
                    if before.contains_key(p) {
                        let k = choose|k: int| 0 <= k < i && #[trigger] set.listing()[k] == p;
                        assert(set.listing()[k] == p);
                    } else {
                        assert(set.listing()[i as int] == p);
                    }
                }
                assert forall|p: Seq<char>|
                    (exists|k: int| 0 <= k < i + 1 && #[trigger] set.listing()[k] == p) implies pending@.contains_key(
                    p,
                ) by {
                    let k = choose|k: int| 0 <= k < i + 1 && #[trigger] set.listing()[k] == p;
                    if k < i {
                        assert(before.contains_key(p));
                    }
                }
            }
            i += 1;
        }
        let state = HistoryState {
            history: HistoryTree::new(),
            pending_edges: pending,
            path_set: set,
            visitor: vis,
            filter: fil,
            seen: Ghost(0),
        };
        proof {
            set.lemma_listing();
            assert forall|p: Seq<char>| state@.pending.contains_key(p) <==> set@.contains(p) by {
                if set@.contains(p) {
                    let k = choose|k: int| 0 <= k < set.listing().len() && #[trigger] set.listing()[k] == p;
                    assert(set.listing()[k] == p);
                }
            }
            assert forall|p: Seq<char>| state@.pending.contains_key(p) implies state@.pending[p]
                =~= Seq::<int>::empty() by {
                assert(pending@[p]@.len() == 0);
            }
            assert(state@.pending =~~= initial(set@).pending);
            assert(state@ =~~= initial(set@));
        }
        state
    }

    /// What the caller's functions make of a commit: the data of its nodes.
    fn new_node(&self, c: &ParsedCommit) -> (data: Option<Rc<T>>)
        requires
            accepts(self.visitor(), self.filter(), *c),
        ensures
            produced_by(self.visitor(), self.filter(), *c, data),
    {
        if (self.filter)(c) {
            Some(Rc::new((self.visitor)(c)))
        } else {
            None
        }
    }

    /// Makes `link_to` the `previous` of every node that waits for
    /// `for_path`, and ends their wait.
    fn build_edges(&mut self, for_path: &str, link_to: usize)
        requires
            old(self).history.origins@.len() == old(self).history.nodes@.len(),
            forall|k: int|
                0 <= k < waiting(old(self)@.pending, for_path@).len() ==> 0 <= #[trigger] waiting(
                    old(self)@.pending,
                    for_path@,
                )[k] < old(self)@.graph.nodes.len(),
        ensures
            final(self).same_setup(old(self)),
            final(self).history.origins@.len() == final(self).history.nodes@.len(),
            final(self)@.graph.nodes == linked(
                old(self)@.graph.nodes,
                waiting(old(self)@.pending, for_path@),
                link_to as int,
            ),
            final(self)@.graph.heads == old(self)@.graph.heads,
            final(self)@.graph.order == old(self)@.graph.order,
            final(self)@.pending == old(self)@.pending.remove(for_path@),
            forall|i: int|
                0 <= i < old(self)@.graph.nodes.len() ==> final(self).data(i) == old(self).data(i),
    {
        let ghost waiters = waiting(self@.pending, for_path@);
        match self.pending_edges.get(for_path) {
            Some(from_set) => {
                assert(ids(from_set@) == waiters);
                let mut k: usize = 0;
                while k < from_set.len()
                    invariant
                        k <= from_set@.len(),
                        ids(from_set@) == waiters,
                        forall|j: int|
                            0 <= j < waiters.len() ==> 0 <= #[trigger] waiters[j] < old(
                                self,
                            )@.graph.nodes.len(),
                        self.history.origins == old(self).history.origins,
                        self.history.origins@.len() == self.history.nodes@.len(),
                        self.history.nodes@.len() == old(self).history.nodes@.len(),
                        self.history.heads == old(self).history.heads,
                        self.history.names == old(self).history.names,
                        self.pending_edges == old(self).pending_edges,
                        self.same_setup(old(self)),
                        self@.graph.nodes == linked(
                            old(self)@.graph.nodes,
                            waiters.take(k as int),
                            link_to as int,
                        ),
                        forall|i: int|
                            0 <= i < old(self)@.graph.nodes.len() ==> self.data(i) == old(self).data(
                                i,
                            ),
                    decreases from_set@.len() - k,
                {
                    let w = from_set[k];
                    assert(waiters[k as int] == w);
                    let ghost before = self@.graph.nodes;
                    self.history.nodes[w].previous = Some(link_to);
                    proof {
                        let after = linked(
                            old(self)@.graph.nodes,
                            waiters.take(k + 1),
                            link_to as int,
                        );
                        assert(waiters.take(k + 1) =~= waiters.take(k as int).push(w as int));
                        assert forall|i: int| 0 <= i < after.len() implies self@.graph.nodes[i]
                            == after[i] by {
                            if i == w {
                                assert(waiters.take(k + 1)[k as int] == w);
                            } else {
                                assert(self@.graph.nodes[i] == before[i]);
                                let longer = waiters.take(k + 1);
                                if longer.contains(i) {
                                    let j = choose|j: int|
                                        0 <= j < longer.len() && #[trigger] longer[j] == i;
                                    assert(waiters.take(k as int)[j] == i);
                                }
                            }
                        }
                        assert(self@.graph.nodes =~= after);
                    }
                    k += 1;
                }
                assert(waiters.take(k as int) =~= waiters);
            },
            None => {
                assert(waiters =~= Seq::empty());
                assert(self@.graph.nodes =~= linked(self@.graph.nodes, waiters, link_to as int));
            },
        }
        self.pending_edges.remove(for_path);
        assert(self@.pending =~~= old(self)@.pending.remove(for_path@));
    }

    /// Lets `node` wait for the next older change under `name`, which is
    /// watched from now on.
    fn add_pending(&mut self, name: &str, node: usize)
        requires
            old(self).history.origins@.len() == old(self).history.nodes@.len(),
        ensures
            final(self).same_setup(old(self)),
            final(self).history.origins@.len() == final(self).history.nodes@.len(),
            final(self)@.graph == old(self)@.graph,
            final(self)@.pending == registered(old(self)@.pending, name@, node as int),
            forall|i: int|
                0 <= i < old(self)@.graph.nodes.len() ==> final(self).data(i) == old(self).data(i),
    {
        let mut waiters: Vec<usize> = match self.pending_edges.get(name) {
            Some(w) => w.clone(),
            None => Vec::new(),
        };
        assert(ids(waiters@) =~= waiting(self@.pending, name@));
        waiters.push(node);
        assert(ids(waiters@) =~= waiting(self@.pending, name@).push(node as int));
        self.pending_edges.insert(name.to_owned(), waiters);
        assert(self@.pending =~~= registered(old(self)@.pending, name@, node as int));
    }

    /// Makes the node of a change to the watched name `key`, links the nodes
    /// that waited for `key` to it, and makes it the head of `key` if the
    /// caller asked for `key` and it has no head yet.
    fn append_node(&mut self, key: &str, data: Option<Rc<T>>, delta: Ghost<int>) -> (node: usize)
        requires
            old(self).wf(),
        ensures
            final(self).same_setup(old(self)),
            final(self).history.origins@.len() == final(self).history.nodes@.len(),
            node == old(self)@.graph.nodes.len(),
            final(self)@.graph.nodes == linked(
                old(self)@.graph.nodes,
                waiting(old(self)@.pending, key@),
                node as int,
            ).push(NodeModel { previous: None, commit: old(self).seen(), delta: delta@ }),
            final(self)@.graph.heads == if old(self).paths().contains(key@) && !old(
                self,
            )@.graph.heads.contains_key(key@) {
                old(self)@.graph.heads.insert(key@, node as int)
            } else {
                old(self)@.graph.heads
            },
            final(self)@.graph.order == if old(self).paths().contains(key@) && !old(
                self,
            )@.graph.heads.contains_key(key@) {
                old(self)@.graph.order.push(key@)
            } else {
                old(self)@.graph.order
            },
            final(self)@.pending == old(self)@.pending.remove(key@),
            final(self).data(node as int) == data,
            forall|i: int|
                0 <= i < old(self)@.graph.nodes.len() ==> final(self).data(i) == old(self).data(i),
    {
        let node = self.history.nodes.len();
        let ghost waiters = waiting(self@.pending, key@);
        self.history.nodes.push(HistoryNode { data, previous: None });
        proof {
            self.history.origins@ = self.history.origins@.push((self.seen@, delta@));
        }
        let ghost pushed = self@.graph.nodes;
        assert(pushed =~= old(self)@.graph.nodes.push(
            NodeModel { previous: None, commit: old(self).seen(), delta: delta@ },
        ));
        assert(self@.pending == old(self)@.pending);
        assert forall|k: int| 0 <= k < waiters.len() implies 0 <= #[trigger] waiters[k]
            < self@.graph.nodes.len() by {
            assert(old(self)@.pending[key@][k] == waiters[k]);
        }
        let ghost pushed_state = *self;
        assert(self.data(node as int) == data);
        assert forall|i: int| 0 <= i < old(self)@.graph.nodes.len() implies self.data(i) == old(
            self,
        ).data(i) by {
            assert(self.history.nodes@[i] == old(self).history.nodes@[i]);
        }
        self.build_edges(key, node);
        assert(self.data(node as int) == pushed_state.data(node as int));
        assert forall|i: int| 0 <= i < old(self)@.graph.nodes.len() implies self.data(i) == old(
            self,
        ).data(i) by {
            assert(self.data(i) == pushed_state.data(i));
        }
        proof {
            let made = NodeModel { previous: None, commit: old(self).seen(), delta: delta@ };
            let want = linked(old(self)@.graph.nodes, waiters, node as int).push(made);
            assert forall|i: int| 0 <= i < want.len() implies self@.graph.nodes[i] == want[i] by {
                if i == node {
                    if waiters.contains(i) {
                        let k = choose|k: int| 0 <= k < waiters.len() && waiters[k] == i;
                        assert(old(self)@.pending[key@][k] == waiters[k]);
                    }
                }
            }
            assert(self@.graph.nodes =~= want);
        }
        if self.path_set.contains(key) && !self.history.heads.contains_key(key) {
            self.history.heads.insert(key.to_owned(), node);
            self.history.names.push(key.to_owned());
            assert(self@.graph.heads =~= old(self)@.graph.heads.insert(key@, node as int));
            assert(self@.graph.order =~= old(self)@.graph.order.push(key@));
        }
        node
    }

    /// Takes the next commit of the stream, which is older than those taken
    /// before, and adds its changes to the history.
    pub fn append_commit(&mut self, commit: &ParsedCommit)
        requires
            old(self).wf(),
            accepts(old(self).visitor(), old(self).filter(), *commit),
        ensures
            final(self).wf(),
            final(self)@ == apply_deltas(
                old(self)@,
                old(self).paths(),
                old(self).seen(),
                commit@.deltas,
            ),
            final(self).paths() == old(self).paths(),
            final(self).visitor() == old(self).visitor(),
            final(self).filter() == old(self).filter(),
            final(self).seen() == old(self).seen() + 1,
            old(self)@.graph.nodes.len() <= final(self)@.graph.nodes.len(),
            forall|i: int|
                0 <= i < old(self)@.graph.nodes.len() ==> final(self).data(i) == old(self).data(i),
            forall|i: int|
                old(self)@.graph.nodes.len() <= i < final(self)@.graph.nodes.len() ==> produced_by(
                    old(self).visitor(),
                    old(self).filter(),
                    *commit,
                    #[trigger] final(self).data(i),
                ),
            forall|i: int, j: int|
                old(self)@.graph.nodes.len() <= i < final(self)@.graph.nodes.len() && old(
                    self,
                )@.graph.nodes.len() <= j < final(self)@.graph.nodes.len()
                    ==> #[trigger] final(self).data(i) == #[trigger] final(self).data(j),
    {
        let ghost deltas = commit@.deltas;
        let mut memo: Option<Option<Rc<T>>> = None;
        let mut i: usize = 0;
        assert(deltas.take(0) =~= Seq::empty());
        while i < commit.deltas.len()
            invariant
                i <= commit.deltas@.len(),
                deltas == commit@.deltas,
                deltas.len() == commit.deltas@.len(),
                self.wf(),
                self.same_setup(old(self)),
                accepts(self.visitor(), self.filter(), *commit),
                self@ == apply_deltas(
                    old(self)@,
                    old(self).paths(),
                    old(self).seen(),
                    deltas.take(i as int),
                ),
                old(self)@.graph.nodes.len() <= self@.graph.nodes.len(),
                forall|j: int|
                    0 <= j < old(self)@.graph.nodes.len() ==> self.data(j) == old(self).data(j),
                forall|j: int|
                    old(self)@.graph.nodes.len() <= j < self@.graph.nodes.len() ==> produced_by(
                        self.visitor(),
                        self.filter(),
                        *commit,
                        #[trigger] self.data(j),
                    ),
                memo matches Some(d) ==> produced_by(self.visitor(), self.filter(), *commit, d),
                forall|j: int|
                    old(self)@.graph.nodes.len() <= j < self@.graph.nodes.len() ==> memo == Some(
                        #[trigger] self.data(j),
                    ),
            decreases commit.deltas@.len() - i,
        {
            let delta = &commit.deltas[i];
            let ghost before = self@;
            let ghost before_data = |j: int| self.data(j);
            proof {
                assert(deltas.take(i + 1).drop_last() =~= deltas.take(i as int));
                assert(deltas.take(i + 1).last() == delta@);
                lemma_apply_delta_wf(before, self.paths(), self.seen(), i as int, delta@);
            }
            // A change to a name that nothing waits for, and that was not
            // asked for, is none of ours.
            if self.pending_edges.contains_key(delta.path.as_str()) {
                let data = match &memo {
                    Some(d) => match d {
                        Some(shared) => Some(share(shared)),
                        None => None,
                    },
                    None => {
                        let made = self.new_node(commit);
                        memo = Some(
                            match &made {
                                Some(shared) => Some(share(shared)),
                                None => None,
                            },
                        );
                        made
                    },
                };
                let node = self.append_node(delta.path.as_str(), data, Ghost(i as int));
                match delta.change {
                    // A modified file had the same name before.
                    Change::Modified => {
                        self.add_pending(delta.path.as_str(), node);
                    },
                    // An added file was not there before; a deleted one did
                    // not reach the present under this name.
                    Change::Added | Change::Deleted => {},
                    // A renamed or copied file had the old name before.
                    Change::Renamed { .. } | Change::Copied { .. } => {
                        self.add_pending(delta.from.as_str(), node);
                    },
                }
                assert(self@ =~~= apply_delta(before, self.paths(), self.seen(), i as int, delta@));
            }
            i += 1;
        }
        assert(deltas.take(i as int) =~= deltas);
        let ghost walked = *self;
        proof {
            self.seen@ = self.seen@ + 1;
        }
        assert forall|j: int|
            old(self)@.graph.nodes.len() <= j < self@.graph.nodes.len() implies produced_by(
            old(self).visitor(),
            old(self).filter(),
            *commit,
            #[trigger] self.data(j),
        ) && memo == Some(self.data(j)) by {
            assert(self.data(j) == walked.data(j));
        }
    }

    /// The history found so far. Nodes that still wait keep no `previous`.
    pub fn into_tree(self) -> (tree: HistoryTree<T>)
        requires
            self.wf(),
        ensures
            tree.wf(),
            tree@ == self@.graph,
            forall|i: int| 0 <= i < tree@.nodes.len() ==> tree.data(i) == self.data(i),
    {
        self.history
    }
}

/// Walks through `commits`, the newest first, and builds the history of the
/// files in `paths`, following each through renames and copies.
///
/// Each node carries what `v` makes of its commit; where `f` turns a commit
/// down, its nodes carry nothing, and the shape of the history is the same.
pub fn gather_history<T, V, F>(paths: &PathSet, v: V, f: F, commits: &Vec<ParsedCommit>) -> (tree:
    HistoryTree<T>) where V: Fn(&ParsedCommit) -> T, F: Fn(&ParsedCommit) -> bool
    requires
        paths.wf(),
        forall|i: int| 0 <= i < commits@.len() ==> accepts(v, f, #[trigger] commits@[i]),
    ensures
        tree.is_history_of(paths@, v, f, commits@),
{
    let mut state = HistoryState::new(paths, v, f);
    let ghost all = commit_views(commits@);
    let mut i: usize = 0;
    assert(all.take(0) =~= Seq::empty());
    while i < commits.len()
        invariant
            i <= commits@.len(),
            all == commit_views(commits@),
            state.wf(),
            state.paths() == paths@,
            state.visitor() == v,
            state.filter() == f,
            state.seen() == i,
            state@ == apply_commits(paths@, all.take(i as int)),
            forall|k: int| 0 <= k < commits@.len() ==> accepts(v, f, #[trigger] commits@[k]),
            forall|j: int|
                0 <= j < state@.graph.nodes.len() ==> 0 <= (#[trigger] state@.graph.nodes[j]).commit
                    < i && produced_by(v, f, commits@[state@.graph.nodes[j].commit], state.data(j)),
            forall|j: int, k: int|
                0 <= j < state@.graph.nodes.len() && 0 <= k < state@.graph.nodes.len() && (
                #[trigger] state@.graph.nodes[j]).commit == (#[trigger] state@.graph.nodes[k]).commit
                    ==> state.data(j) == state.data(k),
        decreases commits@.len() - i,
    {
        let ghost before = state@;
        proof {
            assert(all.take(i + 1).drop_last() =~= all.take(i as int));
            assert(all.take(i + 1).last() == commits@[i as int]@);
            lemma_apply_deltas_nodes(before, paths@, i as int, commits@[i as int]@.deltas);
        }
        state.append_commit(&commits[i]);
        i += 1;
    }
    assert(all.take(i as int) =~= all);
    state.into_tree()
}

} // verus!
