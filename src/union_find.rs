//! The disjoint-set engine: elements are `usize` keys, parent links and ranks
//! are kept in two hash maps, and every operation is stated over the forest
//! model of `forest`.
use std::collections::HashMap;
use std::collections::HashSet;
use vstd::prelude::*;
use vstd::std_specs::hash::spec_keys_iter;
use vstd::std_specs::iter::IteratorSpec;
use crate::forest::{
    forest_wf, is_root, lemma_compress, lemma_link, lemma_rank_bound, lemma_register, lemma_root_props,
    lemma_same_ranks, rank_of, root_of,
};

verus! {

/// A disjoint-set forest over `usize` elements. Elements join lazily: the
/// first `find` or `union` that names one registers it as its own group.
#[derive(Debug, PartialEq)]
pub struct UnionFind {
    size: usize,
    parents: HashMap<usize, usize>,
    rank: HashMap<usize, usize>,
}

/// `groups` is the partition of the elements satisfying `member` by their
/// representative under `rep`: every group is non-empty, holds members only,
/// every member lies in a group, and two members share a group exactly when
/// they share a representative.
pub open spec fn groups_by(
    groups: Seq<Set<usize>>,
    member: spec_fn(usize) -> bool,
    rep: spec_fn(usize) -> usize,
) -> bool {
    &&& forall|i: int| 0 <= i < groups.len() ==> #[trigger] groups[i] != Set::<usize>::empty()
    &&& forall|i: int, v: usize| 0 <= i < groups.len() && #[trigger] groups[i].contains(v) ==> member(v)
    &&& forall|v: usize| #[trigger] member(v) ==> exists|i: int| 0 <= i < groups.len() && #[trigger] groups[i].contains(v)
    &&& forall|i: int, j: int, u: usize, v: usize|
        0 <= i < groups.len() && 0 <= j < groups.len() && #[trigger] groups[i].contains(u) && #[trigger] groups[j].contains(v)
            ==> (i == j <==> rep(u) == rep(v))
}

/// The operations of a disjoint-set engine over `usize` elements.
pub trait UnionFindTrait: Sized {
    /// The engine's invariant.
    spec fn valid(&self) -> bool;

    /// The reported size.
    spec fn count(&self) -> int;

    /// Whether `v` has been registered.
    spec fn knows(&self, v: usize) -> bool;

    /// Whether `v` holds a rank entry.
    spec fn ranked(&self, v: usize) -> bool;

    /// The rank of `v`, 0 without an entry.
    spec fn rank_at(&self, v: usize) -> int;

    /// The representative of `v`'s group; an unregistered element is its own.
    spec fn rep(&self, v: usize) -> usize;

    /// The representative of `node`'s group. Path compression may reshape
    /// the forest, but no representative, rank or rank entry changes; an
    /// unregistered `node` is registered as its own group and the size grows
    /// by one.
    fn find(&mut self, node: usize) -> (r: usize)
        requires
            old(self).valid(),
            old(self).knows(node) || old(self).count() < usize::MAX,
        ensures
            final(self).valid(),
            r == old(self).rep(node),
            forall|v: usize| #[trigger] final(self).rep(v) == old(self).rep(v),
            forall|v: usize| #[trigger] final(self).knows(v) == (old(self).knows(v) || v == node),
            final(self).count() == old(self).count() + if old(self).knows(node) { 0int } else { 1int },
            forall|v: usize| #[trigger] final(self).ranked(v) == old(self).ranked(v),
            forall|v: usize| #[trigger] final(self).rank_at(v) == old(self).rank_at(v),
    ;

    /// Merges the groups of `x` and `y` by rank: the representative of lower
    /// rank is attached under the other; on equal ranks the one of `x` goes
    /// under the one of `y`, whose rank grows by one. Both representatives
    /// get a rank entry (0 where they had none), also when they coincide.
    /// Unregistered operands are registered first.
    fn union(&mut self, x: usize, y: usize)
        requires
            old(self).valid(),
            old(self).count() + (if old(self).knows(x) { 0int } else { 1int }) + (if old(self).knows(y)
                || x == y { 0int } else { 1int }) <= usize::MAX,
        ensures
            final(self).valid(),
            forall|v: usize| #[trigger]
                final(self).rep(v) == if old(self).rep(v) == old(self).rep(x) || old(self).rep(v) == old(
                    self,
                ).rep(y) {
                    if old(self).rank_at(old(self).rep(x)) > old(self).rank_at(old(self).rep(y)) {
                        old(self).rep(x)
                    } else {
                        old(self).rep(y)
                    }
                } else {
                    old(self).rep(v)
                },
            forall|v: usize| #[trigger] final(self).knows(v) == (old(self).knows(v) || v == x || v == y),
            final(self).count() == old(self).count() + (if old(self).knows(x) { 0int } else { 1int }) + (
            if old(self).knows(y) || x == y { 0int } else { 1int }),
            forall|v: usize| #[trigger]
                final(self).ranked(v) == (old(self).ranked(v) || v == old(self).rep(x) || v == old(
                    self,
                ).rep(y)),
            forall|v: usize| #[trigger]
                final(self).rank_at(v) == if old(self).rep(x) != old(self).rep(y) && v == old(self).rep(y)
                    && old(self).rank_at(old(self).rep(x)) == old(self).rank_at(old(self).rep(y)) {
                    old(self).rank_at(v) + 1
                } else {
                    old(self).rank_at(v)
                },
    ;

    /// The current groups of the elements that hold a rank entry, one set
    /// per representative, in no particular order. Elements only ever looked
    /// up by `find` are left out. Path compression may reshape the forest;
    /// nothing else changes.
    fn subsets(&mut self) -> (r: Vec<HashSet<usize>>)
        requires
            old(self).valid(),
        ensures
            final(self).valid(),
            groups_by(r@.map_values(|g: HashSet<usize>| g@), |v: usize| old(self).ranked(v), |v: usize| old(self).rep(v)),
            forall|v: usize| #[trigger] final(self).rep(v) == old(self).rep(v),
            forall|v: usize| #[trigger] final(self).knows(v) == old(self).knows(v),
            final(self).count() == old(self).count(),
            forall|v: usize| #[trigger] final(self).ranked(v) == old(self).ranked(v),
            forall|v: usize| #[trigger] final(self).rank_at(v) == old(self).rank_at(v),
    ;
}

impl UnionFind {
    /// The parent links as a map.
    pub closed spec fn parent_map(&self) -> Map<usize, usize> {
        self.parents@
    }

    /// The rank entries as a map.
    pub closed spec fn rank_map(&self) -> Map<usize, usize> {
        self.rank@
    }

    /// The reported size: the capacity given at construction plus the number
    /// of elements registered since.
    pub closed spec fn spec_size(&self) -> usize {
        self.size
    }

    /// An engine with size 0 and no elements.
    pub fn new() -> (r: UnionFind)
        ensures
            r.well_formed(),
            r.spec_size() == 0,
            r.registered() == Set::<usize>::empty(),
            r.members() == Set::<usize>::empty(),
    {
        UnionFind { size: 0, parents: HashMap::new(), rank: HashMap::new() }
    }

    /// An engine whose reported size starts at `size`, with room reserved for
    /// that many elements and no element registered.
    pub fn with_capacity(size: usize) -> (r: UnionFind)
        ensures
            r.well_formed(),
            r.spec_size() == size,
            r.registered() == Set::<usize>::empty(),
            r.members() == Set::<usize>::empty(),
    {
        UnionFind { size, parents: HashMap::with_capacity(size), rank: HashMap::with_capacity(size) }
    }

    /// The reported size.
    pub fn size(&self) -> (r: usize)
        ensures
            r == self.spec_size(),
    {
        self.size
    }

    /// The elements holding a rank entry, each once, in no particular order.
    pub fn entries(&self) -> (r: Vec<usize>)
        ensures
            r@.to_set() == self.members(),
            r@.no_duplicates(),
    {
        let mut out: Vec<usize> = Vec::new();
        let ghost keys = spec_keys_iter(&self.rank).remaining();
        for k in it: self.rank.keys()
            invariant
                it.seq() == keys,
                out@.len() == it.index(),
                forall|j: int| 0 <= j < it.index() ==> out@[j] == *it.seq()[j],
        {
            out.push(*k);
        }
        assert(out@ =~= keys.unref());
        out
    }

    /// The invariant of the engine.
    pub open spec fn well_formed(&self) -> bool {
        forest_wf(self.parent_map(), self.rank_map())
    }

    /// The registered elements.
    pub open spec fn registered(&self) -> Set<usize> {
        self.parent_map().dom()
    }

    /// The elements holding a rank entry: those that have been the
    /// representative of an operand of a union.
    pub open spec fn members(&self) -> Set<usize> {
        self.rank_map().dom()
    }

    /// The representative of `v`'s group; an unregistered element is its own.
    pub open spec fn root(&self, v: usize) -> usize {
        root_of(self.parent_map(), self.rank_map(), v)
    }

    /// The rank of `v`, 0 without an entry.
    pub open spec fn rank(&self, v: usize) -> int {
        rank_of(self.rank_map(), v)
    }
}

impl Clone for UnionFind {
    /// An independent copy with the same size, parent links and ranks.
    fn clone(&self) -> (r: Self)
        ensures
            r.spec_size() == self.spec_size(),
            r.parent_map() == self.parent_map(),
            r.rank_map() == self.rank_map(),
    {
        UnionFind { size: self.size, parents: self.parents.clone(), rank: self.rank.clone() }
    }
}

impl Default for UnionFind {
    /// The same as `UnionFind::new`.
    fn default() -> (r: Self)
        ensures
            r.well_formed(),
            r.spec_size() == 0,
            r.registered() == Set::<usize>::empty(),
            r.members() == Set::<usize>::empty(),
    {
        UnionFind::new()
    }
}

impl UnionFind {
    /// Consumes the engine and returns its groups, as `subsets` does.
    pub fn into_subsets(self) -> (r: Vec<HashSet<usize>>)
        requires
            self.well_formed(),
        ensures
            groups_by(r@.map_values(|g: HashSet<usize>| g@), |v: usize| self.ranked(v), |v: usize| self.rep(v)),
    {
        let mut this = self;
        this.subsets()
    }

    /// The parent of a registered element.
    fn parent(&self, v: usize) -> (r: usize)
        requires
            self.parents@.contains_key(v),
        ensures
            r == self.parents@[v],
    {
        match self.parents.get(&v) {
            Some(q) => *q,
            None => v,
        }
    }

    /// The rank entry of an element that holds one.
    fn rank_value(&self, v: usize) -> (r: usize)
        requires
            self.rank@.contains_key(v),
        ensures
            r == self.rank@[v],
    {
        match self.rank.get(&v) {
            Some(q) => *q,
            None => 0,
        }
    }
}

impl UnionFindTrait for UnionFind {
    open spec fn valid(&self) -> bool {
        self.well_formed()
    }

    open spec fn count(&self) -> int {
        self.spec_size() as int
    }

    open spec fn knows(&self, v: usize) -> bool {
        self.registered().contains(v)
    }

    open spec fn ranked(&self, v: usize) -> bool {
        self.members().contains(v)
    }

    open spec fn rank_at(&self, v: usize) -> int {
        self.rank(v)
    }

    open spec fn rep(&self, v: usize) -> usize {
        self.root(v)
    }

    fn find(&mut self, node: usize) -> (r: usize) {
        if !self.parents.contains_key(&node) {
            proof {
                lemma_register(self.parents@, self.rank@, node);
            }
            self.parents.insert(node, node);
            self.size = self.size + 1;
        }
        let ghost p0 = self.parents@;
        let ghost rk = self.rank@;
        let ghost s0 = self.size;
        assert forall|v: usize| #[trigger] root_of(p0, rk, v) == old(self).root(v) by {}
        // Walk up to the representative.
        let mut root = node;
        let mut next = self.parent(root);
        while next != root
            invariant
                self.parents@ == p0,
                self.rank@ == rk,
                self.size == s0,
                forest_wf(p0, rk),
                p0.contains_key(root),
                next == p0[root],
                root_of(p0, rk, root) == root_of(p0, rk, node),
            decreases usize::MAX - rank_of(rk, root),
        {
            proof {
                lemma_root_props(p0, rk, root);
            }
            root = next;
            next = self.parent(root);
        }
        // Point every element on the path directly at the representative.
        let mut cur = node;
        while cur != root
            invariant
                self.rank@ == rk,
                self.size == s0,
                forest_wf(self.parents@, rk),
                self.parents@.dom() == p0.dom(),
                forall|v: usize| #[trigger] root_of(self.parents@, rk, v) == root_of(p0, rk, v),
                self.parents@.contains_key(cur),
                root_of(self.parents@, rk, cur) == root,
                is_root(self.parents@, root),
            decreases usize::MAX - rank_of(rk, cur),
        {
            let ghost pc = self.parents@;
            let next = self.parent(cur);
            proof {
                lemma_root_props(pc, rk, cur);
                lemma_compress(pc, rk, cur);
            }
            self.parents.insert(cur, root);
            cur = next;
        }
        root
    }

    fn union(&mut self, x: usize, y: usize) {
        let x_root = self.find(x);
        let ghost mid = *self;
        let y_root = self.find(y);
        let ghost p1 = self.parents@;
        let ghost rk0 = self.rank@;
        proof {
            assert forall|v: usize|
                #![trigger root_of(p1, rk0, v)]
                #![trigger p1.contains_key(v)]
                #![trigger rk0.contains_key(v)]
                #![trigger rank_of(rk0, v)]
                root_of(p1, rk0, v) == old(self).root(v)
                && p1.contains_key(v) == (old(self).knows(v) || v == x || v == y)
                && rk0.contains_key(v) == old(self).ranked(v)
                && rank_of(rk0, v) == old(self).rank(v) by {
                assert(mid.rep(v) == old(self).rep(v) && self.rep(v) == mid.rep(v));
                assert(mid.knows(v) == (old(self).knows(v) || v == x) && self.knows(v) == (mid.knows(v) || v == y));
                assert(mid.ranked(v) == old(self).ranked(v) && self.ranked(v) == mid.ranked(v));
                assert(mid.rank_at(v) == old(self).rank_at(v) && self.rank_at(v) == mid.rank_at(v));
            }
            assert(self.knows(x) && self.knows(y) && self.rep(x) == x_root && self.rep(y) == y_root);
            lemma_root_props(p1, rk0, x);
            lemma_root_props(p1, rk0, y);
        }
        if !self.rank.contains_key(&x_root) {
            self.rank.insert(x_root, 0);
        }
        if !self.rank.contains_key(&y_root) {
            self.rank.insert(y_root, 0);
        }
        let ghost rk1 = self.rank@;
        proof {
            assert forall|v: usize| #[trigger] rank_of(rk1, v) == rank_of(rk0, v) by {}
            assert(rk1.dom().subset_of(p1.dom()));
            lemma_same_ranks(p1, rk0, rk1);
        }
        if x_root == y_root {
            return;
        }
        let x_rank = self.rank_value(x_root);
        let y_rank = self.rank_value(y_root);
        if x_rank > y_rank {
            self.parents.insert(y_root, x_root);
            proof {
                lemma_link(p1, rk1, rk1, y_root, x_root);
            }
        } else {
            if x_rank == y_rank {
                // A root's rank is below the number of elements, so it can grow.
                let n = self.parents.len();
                proof {
                    lemma_rank_bound(p1, rk1, y_root);
                    assert(y_rank < n);
                }
                self.rank.insert(y_root, y_rank + 1);
            }
            self.parents.insert(x_root, y_root);
            proof {
                lemma_link(p1, rk1, self.rank@, x_root, y_root);
            }
        }
    }

    fn subsets(&mut self) -> (r: Vec<HashSet<usize>>) {
        let ghost s0 = *self;
        let keys = self.entries();
        let mut slot: HashMap<usize, usize> = HashMap::new();
        let mut groups: Vec<HashSet<usize>> = Vec::new();
        let ghost mut owner: Seq<int> = Seq::empty();
        let mut i: usize = 0;
        while i < keys.len()
            invariant
                i <= keys.len(),
                keys@.to_set() == s0.members(),
                s0.valid(),
                self.valid(),
                forall|v: usize| #[trigger] self.rep(v) == s0.rep(v),
                forall|v: usize| #[trigger] self.knows(v) == s0.knows(v),
                self.count() == s0.count(),
                forall|v: usize| #[trigger] self.ranked(v) == s0.ranked(v),
                forall|v: usize| #[trigger] self.rank_at(v) == s0.rank_at(v),
                owner.len() == groups.len(),
                forall|r: usize| #[trigger] slot@.contains_key(r) ==> slot@[r] < groups.len(),
                forall|r1: usize, r2: usize|
                    slot@.contains_key(r1) && slot@.contains_key(r2) && #[trigger] slot@[r1] == #[trigger] slot@[r2]
                        ==> r1 == r2,
                forall|g: int|
                    0 <= g < groups.len() ==> 0 <= #[trigger] owner[g] < i && slot@.contains_key(s0.rep(keys@[owner[g]]))
                        && slot@[s0.rep(keys@[owner[g]])] == g,
                forall|j: int| 0 <= j < i ==> slot@.contains_key(s0.rep(#[trigger] keys@[j])),
                forall|g: int, v: usize|
                    0 <= g < groups.len() ==> (#[trigger] groups@[g]@.contains(v) <==> ((exists|j: int|
                        0 <= j < i && #[trigger] keys@[j] == v) && slot@.contains_key(s0.rep(v)) && slot@[s0.rep(v)] == g)),
            decreases keys.len() - i,
        {
            let node = keys[i];
            proof {
                assert(keys@.to_set().contains(node));
                assert(s0.ranked(node));
                assert(self.ranked(node));
            }
            let root = self.find(node);
            let ghost slot0 = slot@;
            let ghost groups0 = groups@;
            match slot.get(&root) {
                Some(g) => {
                    let g = *g;
                    groups[g].insert(node);
                    proof {
                        assert forall|h: int, v: usize|
                            0 <= h < groups.len() implies (#[trigger] groups@[h]@.contains(v) <==> ((exists|j: int|
                                0 <= j < i + 1 && #[trigger] keys@[j] == v) && slot@.contains_key(s0.rep(v)) && slot@[s0.rep(v)] == h)) by {
                            if groups0[h]@.contains(v) {
                                let j = choose|j: int| 0 <= j < i && #[trigger] keys@[j] == v;
                                assert(0 <= j < i + 1 && keys@[j] == v);
                            }
                            if v == node {
                                assert(0 <= i < i + 1 && keys@[i as int] == v);
                            }
                            if (exists|j: int| 0 <= j < i + 1 && #[trigger] keys@[j] == v) && v != node {
                                let j = choose|j: int| 0 <= j < i + 1 && #[trigger] keys@[j] == v;
                                assert(j != i);
                            }
                        }
                    }
                },
                None => {
                    let mut set: HashSet<usize> = HashSet::new();
                    set.insert(node);
                    slot.insert(root, groups.len());
                    groups.push(set);
                    proof {
                        owner = owner.push(i as int);
                        assert forall|h: int, v: usize|
                            0 <= h < groups.len() implies (#[trigger] groups@[h]@.contains(v) <==> ((exists|j: int|
                                0 <= j < i + 1 && #[trigger] keys@[j] == v) && slot@.contains_key(s0.rep(v)) && slot@[s0.rep(v)] == h)) by {
                            if h < groups0.len() && groups0[h]@.contains(v) {
                                let j = choose|j: int| 0 <= j < i && #[trigger] keys@[j] == v;
                                assert(0 <= j < i + 1 && keys@[j] == v);
                            }
                            if v == node {
                                assert(0 <= i < i + 1 && keys@[i as int] == v);
                            }
                            if (exists|j: int| 0 <= j < i + 1 && #[trigger] keys@[j] == v) && s0.rep(v) != root {
                                let j = choose|j: int| 0 <= j < i + 1 && #[trigger] keys@[j] == v;
                                assert(j != i);
                            }
                        }
                    }
                },
            }
            i = i + 1;
        }
        proof {
            let gs = groups@.map_values(|g: HashSet<usize>| g@);
            assert forall|g: int| 0 <= g < gs.len() implies #[trigger] gs[g].contains(keys@[owner[g]]) by {
                assert(groups@[g]@.contains(keys@[owner[g]]));
                assert(gs[g] == groups@[g]@);
            }
            assert forall|v: usize| #[trigger] s0.ranked(v) implies exists|g: int|
                0 <= g < gs.len() && #[trigger] gs[g].contains(v) by {
                assert(keys@.to_set().contains(v));
                let j = choose|j: int| 0 <= j < keys@.len() && keys@[j] == v;
                assert(keys@[j] == v);
                let g = slot@[s0.rep(v)] as int;
                assert(groups@[g]@.contains(v));
                assert(gs[g] == groups@[g]@);
            }
            assert forall|g: int, v: usize| 0 <= g < gs.len() && #[trigger] gs[g].contains(v) implies s0.ranked(v) by {
                let j = choose|j: int| 0 <= j < i && #[trigger] keys@[j] == v;
                assert(keys@.to_set().contains(keys@[j]));
            }
            assert forall|a: int, b: int, u: usize, v: usize|
                0 <= a < gs.len() && 0 <= b < gs.len() && #[trigger] gs[a].contains(u) && #[trigger] gs[b].contains(v)
                    implies (a == b <==> s0.rep(u) == s0.rep(v)) by {
                assert(gs[a] == groups@[a]@ && gs[b] == groups@[b]@);
            }
            let member = |v: usize| s0.ranked(v);
            let rep = |v: usize| s0.rep(v);
            assert forall|v: usize| #[trigger] member(v) implies exists|g: int|
                0 <= g < gs.len() && #[trigger] gs[g].contains(v) by {
                assert(s0.ranked(v));
            }
            assert forall|g: int, v: usize| 0 <= g < gs.len() && #[trigger] gs[g].contains(v) implies member(v) by {
                assert(s0.ranked(v));
            }
            assert forall|a: int, b: int, u: usize, v: usize|
                0 <= a < gs.len() && 0 <= b < gs.len() && #[trigger] gs[a].contains(u) && #[trigger] gs[b].contains(v)
                    implies (a == b <==> rep(u) == rep(v)) by {
                assert(s0.rep(u) == rep(u) && s0.rep(v) == rep(v));
            }
            assert forall|k: int| 0 <= k < gs.len() implies #[trigger] gs[k] != Set::<usize>::empty() by {
                assert(gs[k].contains(keys@[owner[k]]));
                assert(!Set::<usize>::empty().contains(keys@[owner[k]]));
            }
            assert(forall|i: int, v: usize| 0 <= i < gs.len() && #[trigger] gs[i].contains(v) ==> member(v));
            assert(forall|v: usize| #[trigger] member(v) ==> exists|i: int| 0 <= i < gs.len() && #[trigger] gs[i].contains(v));
            assert(groups_by(gs, member, rep));
        }
        groups
    }
}

} // verus!
