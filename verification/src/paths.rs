//! The set of file names whose history is wanted.

use vstd::hash_set::StringHashSet;
use vstd::prelude::*;
use vstd::string::*;

verus! {

/// The names of `names` in their order, each at its first place only.
pub open spec fn first_occurrences(names: Seq<Seq<char>>) -> Seq<Seq<char>>
    decreases names.len(),
{
    if names.len() == 0 {
        Seq::empty()
    } else {
        let before = first_occurrences(names.drop_last());
        if before.contains(names.last()) {
            before
        } else {
            before.push(names.last())
        }
    }
}

/// A set of paths.
///
/// The set keeps its members in a hash table, to find one fast, and in the
/// order in which they were added, to walk through them; both hold the same
/// names.
pub struct PathSet {
    names: Vec<String>,
    index: StringHashSet,
}

impl View for PathSet {
    type V = Set<Seq<char>>;

    closed spec fn view(&self) -> Set<Seq<char>> {
        self.index@
    }
}

impl PathSet {
    /// The members in the order in which they were added.
    pub closed spec fn listing(&self) -> Seq<Seq<char>> {
        self.names@.map_values(|n: String| n@)
    }

    /// The listing holds each member once, and nothing else.
    pub closed spec fn wf(&self) -> bool {
        &&& forall|i: int| 0 <= i < self.names@.len() ==> self.index@.contains(#[trigger] self.names@[i]@)
        &&& forall|p: Seq<char>| #[trigger]
            self.index@.contains(p) ==> exists|i: int|
                0 <= i < self.names@.len() && #[trigger] self.names@[i]@ == p
        &&& forall|i: int, j: int|
            0 <= i < j < self.names@.len() ==> #[trigger] self.names@[i]@ != #[trigger] self.names@[j]@
    }

    /// What well-formedness says of the listing.
    pub proof fn lemma_listing(&self)
        requires
            self.wf(),
        ensures
            forall|i: int|
                0 <= i < self.listing().len() ==> self@.contains(#[trigger] self.listing()[i]),
            forall|p: Seq<char>| #[trigger]
                self@.contains(p) ==> exists|i: int|
                    0 <= i < self.listing().len() && #[trigger] self.listing()[i] == p,
            forall|i: int, j: int|
                0 <= i < j < self.listing().len() ==> #[trigger] self.listing()[i]
                    != #[trigger] self.listing()[j],
    {
        assert forall|p: Seq<char>| #[trigger] self@.contains(p) implies exists|i: int|
            0 <= i < self.listing().len() && #[trigger] self.listing()[i] == p by {
            let i = choose|i: int| 0 <= i < self.names@.len() && #[trigger] self.names@[i]@ == p;
            assert(self.listing()[i] == p);
        }
    }

    /// The empty set.
    pub fn new() -> (s: PathSet)
        ensures
            s.wf(),
            s@ == Set::<Seq<char>>::empty(),
            s.listing() == Seq::<Seq<char>>::empty(),
    {
        let s = PathSet { names: Vec::new(), index: StringHashSet::new() };
        assert(s.listing() =~= Seq::<Seq<char>>::empty());
        s
    }

    /// Adds a path. Returns whether it was new.
    pub fn insert(&mut self, path: String) -> (added: bool)
        requires
            old(self).wf(),
        ensures
            final(self).wf(),
            final(self)@ == old(self)@.insert(path@),
            added == !old(self)@.contains(path@),
            final(self).listing() == if added {
                old(self).listing().push(path@)
            } else {
                old(self).listing()
            },
    {
        if self.index.contains(path.as_str()) {
            assert(self.index@.insert(path@) =~= self.index@);
            false
        } else {
            self.index.insert(path.clone());
            self.names.push(path);
            proof {
                let n = old(self).names@.len() as int;
                assert(self.names@[n]@ == path@);
                assert forall|p: Seq<char>| #[trigger] self.index@.contains(p) implies exists|i: int|
                    0 <= i < self.names@.len() && #[trigger] self.names@[i]@ == p by {
                    if p == path@ {
                        assert(self.names@[n]@ == p);
                    } else {
                        let i = choose|i: int|
                            0 <= i < old(self).names@.len() && #[trigger] old(self).names@[i]@ == p;
                        assert(self.names@[i]@ == p);
                    }
                }
                assert forall|i: int, j: int| 0 <= i < j < self.names@.len() implies #[trigger] self.names@[i]@
                    != #[trigger] self.names@[j]@ by {
                    if j == n {
                        assert(old(self).index@.contains(old(self).names@[i]@));
                    } else {
                        assert(old(self).names@[i]@ != old(self).names@[j]@);
                    }
                }
                assert(self.listing() =~= old(self).listing().push(path@));
            }
            true
        }
    }

    /// Whether `path` is in the set.
    pub fn contains(&self, path: &str) -> (found: bool)
        ensures
            found == self@.contains(path@),
    {
        self.index.contains(path)
    }

    /// The number of paths in the set.
    pub fn len(&self) -> (n: usize)
        ensures
            n == self.listing().len(),
    {
        self.names.len()
    }

    /// Whether the set is empty.
    pub fn is_empty(&self) -> (empty: bool)
        ensures
            empty == (self.listing().len() == 0),
    {
        self.names.len() == 0
    }

    /// The path that was added as the `i`-th new one, counted from 0.
    pub fn get(&self, i: usize) -> (path: &String)
        requires
            i < self.listing().len(),
        ensures
            path@ == self.listing()[i as int],
    {
        &self.names[i]
    }

    /// The set of the given paths, such as the lines that `git ls-files`
    /// prints. A path that occurs twice is taken once.
    pub fn from_paths(paths: &Vec<String>) -> (s: PathSet)
        ensures
            s.wf(),
            forall|p: Seq<char>|
                s@.contains(p) <==> exists|i: int| 0 <= i < paths@.len() && #[trigger] paths@[i]@ == p,
            s.listing() == first_occurrences(paths@.map_values(|n: String| n@)),
    {
        let mut s = PathSet::new();
        let mut i: usize = 0;
        let ghost names = paths@.map_values(|n: String| n@);
        assert(names.take(0) =~= Seq::empty());
        while i < paths.len()
            invariant
                i <= paths.len(),
                s.wf(),
                names == paths@.map_values(|n: String| n@),
                forall|p: Seq<char>|
                    s@.contains(p) <==> exists|k: int| 0 <= k < i && #[trigger] paths@[k]@ == p,
                s.listing() == first_occurrences(names.take(i as int)),
            decreases paths.len() - i,
        {
            let ghost before = s@;
            proof {
                s.lemma_listing();
                assert(names.take(i + 1).drop_last() =~= names.take(i as int));
                assert(names.take(i + 1).last() == paths@[i as int]@);
                let listed = s.listing();
                let name = paths@[i as int]@;
                if listed.contains(name) {
                    let k = choose|k: int| 0 <= k < listed.len() && listed[k] == name;
                    assert(s@.contains(listed[k]));
                }
            }
            s.insert(paths[i].clone());
            proof {
                assert forall|p: Seq<char>| s@.contains(p) implies exists|k: int|
                    0 <= k < i + 1 && #[trigger] paths@[k]@ == p by {
                    if before.contains(p) {
                        let k = choose|k: int| 0 <= k < i && #[trigger] paths@[k]@ == p;
                        assert(paths@[k]@ == p);
                    } else {
                        assert(paths@[i as int]@ == p);
                    }
                }
                assert forall|p: Seq<char>|
                    (exists|k: int| 0 <= k < i + 1 && #[trigger] paths@[k]@ == p) implies s@.contains(
                    p,
                ) by {
                    let k = choose|k: int| 0 <= k < i + 1 && #[trigger] paths@[k]@ == p;
                    if k < i {
                        assert(before.contains(p));
                    }
                }
            }
            i += 1;
        }
        assert(names.take(i as int) =~= names);
        s
    }
}

} // verus!
