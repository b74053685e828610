//! The mathematical model of a parent-pointer forest: parent links and ranks
//! as maps, the representative reached from an element, and the invariant that
//! keeps the forest acyclic.
use vstd::prelude::*;

verus! {

/// Rank of `v`; an element without a rank entry counts as rank 0.
pub open spec fn rank_of(rk: Map<usize, usize>, v: usize) -> int {
    if rk.contains_key(v) {
        rk[v] as int
    } else {
        0
    }
}

/// `v` is a representative: it is registered and its own parent.
pub open spec fn is_root(p: Map<usize, usize>, v: usize) -> bool {
    p.contains_key(v) && p[v] == v
}

/// The representative reached from `v` by following parent links. An element
/// without a parent entry is its own representative. The rank test keeps the
/// definition total; in a well-formed forest it holds on every link.
pub open spec fn root_of(p: Map<usize, usize>, rk: Map<usize, usize>, v: usize) -> usize
    decreases usize::MAX - rank_of(rk, v),
{
    if p.contains_key(v) && p[v] != v && rank_of(rk, v) < rank_of(rk, p[v]) {
        root_of(p, rk, p[v])
    } else {
        v
    }
}

/// Root `v` has a direct child other than itself whose rank is `k`.
pub open spec fn has_child_of_rank(p: Map<usize, usize>, rk: Map<usize, usize>, v: usize, k: int) -> bool {
    exists|u: usize| p.contains_key(u) && u != v && p[u] == v && rank_of(rk, u) == k
}

/// The forest invariant: parents are registered, ranks strictly grow along
/// every link, only registered elements carry a rank, and a root of rank `r`
/// keeps a direct child of each rank below `r` (which bounds ranks by the
/// number of elements).
pub open spec fn forest_wf(p: Map<usize, usize>, rk: Map<usize, usize>) -> bool {
    &&& forall|v: usize| #![trigger p[v]] p.contains_key(v) ==> p.contains_key(p[v])
    &&& forall|v: usize|
        #![trigger p[v]]
        p.contains_key(v) && p[v] != v ==> rank_of(rk, v) < rank_of(rk, p[v])
    &&& forall|v: usize| #[trigger] rk.contains_key(v) ==> p.contains_key(v)
    &&& forall|v: usize, k: int|
        is_root(p, v) && 0 <= k < rank_of(rk, v) ==> #[trigger] has_child_of_rank(p, rk, v, k)
}

/// In a well-formed forest the representative of a registered element is a
/// registered root whose rank is at least that of the element, strictly so
/// when the element is not a root itself.
pub proof fn lemma_root_props(p: Map<usize, usize>, rk: Map<usize, usize>, v: usize)
    requires
        forest_wf(p, rk),
        p.contains_key(v),
    ensures
        is_root(p, root_of(p, rk, v)),
        rank_of(rk, v) <= rank_of(rk, root_of(p, rk, v)),
        p[v] != v ==> rank_of(rk, v) < rank_of(rk, root_of(p, rk, v)),
        p[v] != v ==> root_of(p, rk, v) == root_of(p, rk, p[v]),
    decreases usize::MAX - rank_of(rk, v),
{
    if p[v] != v {
        lemma_root_props(p, rk, p[v]);
    }
}

/// Under the invariant, representatives depend only on the parent links: two
/// rank maps that both keep the invariant give the same representatives.
pub proof fn lemma_roots_rank_independent(
    p: Map<usize, usize>,
    rk1: Map<usize, usize>,
    rk2: Map<usize, usize>,
    v: usize,
)
    requires
        forest_wf(p, rk1),
        forest_wf(p, rk2),
    ensures
        root_of(p, rk1, v) == root_of(p, rk2, v),
    decreases usize::MAX - rank_of(rk1, v),
{
    if p.contains_key(v) && p[v] != v {
        lemma_roots_rank_independent(p, rk1, rk2, p[v]);
    }
}

/// Adding rank entries that keep every element's rank (an explicit 0 where
/// there was none) keeps the invariant and every representative.
pub proof fn lemma_same_ranks(p: Map<usize, usize>, rk: Map<usize, usize>, rk2: Map<usize, usize>)
    requires
        forest_wf(p, rk),
        forall|v: usize| #[trigger] rank_of(rk2, v) == rank_of(rk, v),
        rk2.dom().subset_of(p.dom()),
    ensures
        forest_wf(p, rk2),
        forall|v: usize| #[trigger] root_of(p, rk2, v) == root_of(p, rk, v),
{
    assert forall|v: usize, k: int|
        is_root(p, v) && 0 <= k < rank_of(rk2, v) implies #[trigger] has_child_of_rank(p, rk2, v, k) by {
        assert(has_child_of_rank(p, rk, v, k));
        let u = choose|u: usize| p.contains_key(u) && u != v && p[u] == v && rank_of(rk, u) == k;
        assert(p.contains_key(u) && u != v && p[u] == v && rank_of(rk2, u) == k);
    }
    assert forall|v: usize| #[trigger] root_of(p, rk2, v) == root_of(p, rk, v) by {
        lemma_roots_rank_independent(p, rk2, rk, v);
    }
}

/// Registering a new element as its own root keeps the invariant and every
/// representative.
pub proof fn lemma_register(p: Map<usize, usize>, rk: Map<usize, usize>, n: usize)
    requires
        forest_wf(p, rk),
        !p.contains_key(n),
    ensures
        forest_wf(p.insert(n, n), rk),
        forall|v: usize| #[trigger] root_of(p.insert(n, n), rk, v) == root_of(p, rk, v),
{
    let p2 = p.insert(n, n);
    assert forall|v: usize, k: int|
        is_root(p2, v) && 0 <= k < rank_of(rk, v) implies #[trigger] has_child_of_rank(p2, rk, v, k) by {
        assert(v != n);
        assert(has_child_of_rank(p, rk, v, k));
        let u = choose|u: usize| p.contains_key(u) && u != v && p[u] == v && rank_of(rk, u) == k;
        assert(p2.contains_key(u) && u != v && p2[u] == v && rank_of(rk, u) == k);
    }
    assert forall|v: usize| #[trigger] root_of(p2, rk, v) == root_of(p, rk, v) by {
        lemma_register_root(p, rk, n, v);
    }
}

proof fn lemma_register_root(p: Map<usize, usize>, rk: Map<usize, usize>, n: usize, v: usize)
    requires
        forest_wf(p, rk),
        !p.contains_key(n),
    ensures
        root_of(p.insert(n, n), rk, v) == root_of(p, rk, v),
    decreases usize::MAX - rank_of(rk, v),
{
    if p.contains_key(v) && p[v] != v {
        lemma_register_root(p, rk, n, p[v]);
    }
}

/// Pointing a non-root element directly at its representative (one step of
/// path compression) keeps the invariant and every representative.
pub proof fn lemma_compress(p: Map<usize, usize>, rk: Map<usize, usize>, w: usize)
    requires
        forest_wf(p, rk),
        p.contains_key(w),
        p[w] != w,
    ensures
        forest_wf(p.insert(w, root_of(p, rk, w)), rk),
        forall|v: usize| #[trigger] root_of(p.insert(w, root_of(p, rk, w)), rk, v) == root_of(p, rk, v),
{
    let r = root_of(p, rk, w);
    let p2 = p.insert(w, r);
    lemma_root_props(p, rk, w);
    assert forall|v: usize, k: int|
        is_root(p2, v) && 0 <= k < rank_of(rk, v) implies #[trigger] has_child_of_rank(p2, rk, v, k) by {
        assert(v != w);
        assert(has_child_of_rank(p, rk, v, k));
        let u = choose|u: usize| p.contains_key(u) && u != v && p[u] == v && rank_of(rk, u) == k;
        if u == w {
            lemma_root_props(p, rk, v);
        }
        assert(p2.contains_key(u) && u != v && p2[u] == v && rank_of(rk, u) == k);
    }
    assert forall|v: usize| #[trigger] root_of(p2, rk, v) == root_of(p, rk, v) by {
        lemma_compress_root(p, rk, w, v);
    }
}

proof fn lemma_compress_root(p: Map<usize, usize>, rk: Map<usize, usize>, w: usize, v: usize)
    requires
        forest_wf(p, rk),
        p.contains_key(w),
        p[w] != w,
    ensures
        root_of(p.insert(w, root_of(p, rk, w)), rk, v) == root_of(p, rk, v),
    decreases usize::MAX - rank_of(rk, v),
{
    let r = root_of(p, rk, w);
    let p2 = p.insert(w, r);
    lemma_root_props(p, rk, w);
    if v == w {
        assert(root_of(p2, rk, r) == r);
    } else if p.contains_key(v) && p[v] != v {
        lemma_compress_root(p, rk, w, p[v]);
    }
}

/// Attaching root `x` under root `y` merges their groups into the one of `y`.
/// `rk2` is either `rk` or `rk` with the rank of `y` raised by one, which is
/// allowed only when `x` and `y` had equal ranks.
pub proof fn lemma_link(
    p: Map<usize, usize>,
    rk: Map<usize, usize>,
    rk2: Map<usize, usize>,
    x: usize,
    y: usize,
)
    requires
        forest_wf(p, rk),
        is_root(p, x),
        is_root(p, y),
        x != y,
        rk2 == rk || (rk2 == rk.insert(y, (rank_of(rk, y) + 1) as usize) && rank_of(rk, x) == rank_of(rk, y)
            && rank_of(rk, y) < usize::MAX),
        rank_of(rk2, x) < rank_of(rk2, y),
    ensures
        forest_wf(p.insert(x, y), rk2),
        forall|v: usize| #[trigger] root_of(p.insert(x, y), rk2, v)
            == if root_of(p, rk, v) == x { y } else { root_of(p, rk, v) },
{
    let p2 = p.insert(x, y);
    assert forall|v: usize| #![trigger p2[v]] p2.contains_key(v) && p2[v] != v implies rank_of(rk2, v) < rank_of(rk2, p2[v]) by {
        if v != x {
            assert(v != y);
        }
    }
    assert forall|v: usize, k: int|
        is_root(p2, v) && 0 <= k < rank_of(rk2, v) implies #[trigger] has_child_of_rank(p2, rk2, v, k) by {
        assert(v != x);
        if v == y && k == rank_of(rk, y) {
            assert(p2.contains_key(x) && x != v && p2[x] == v && rank_of(rk2, x) == k);
        } else {
            assert(has_child_of_rank(p, rk, v, k));
            let u = choose|u: usize| p.contains_key(u) && u != v && p[u] == v && rank_of(rk, u) == k;
            assert(u != x && u != y);
            assert(p2.contains_key(u) && u != v && p2[u] == v && rank_of(rk2, u) == k);
        }
    }
    assert forall|v: usize| #[trigger] root_of(p2, rk2, v)
        == if root_of(p, rk, v) == x { y } else { root_of(p, rk, v) } by {
        lemma_link_root(p, rk, rk2, x, y, v);
    }
}

proof fn lemma_link_root(
    p: Map<usize, usize>,
    rk: Map<usize, usize>,
    rk2: Map<usize, usize>,
    x: usize,
    y: usize,
    v: usize,
)
    requires
        forest_wf(p, rk),
        is_root(p, x),
        is_root(p, y),
        x != y,
        rk2 == rk || (rk2 == rk.insert(y, (rank_of(rk, y) + 1) as usize) && rank_of(rk, x) == rank_of(rk, y)
            && rank_of(rk, y) < usize::MAX),
        rank_of(rk2, x) < rank_of(rk2, y),
    ensures
        root_of(p.insert(x, y), rk2, v) == if root_of(p, rk, v) == x { y } else { root_of(p, rk, v) },
    decreases usize::MAX - rank_of(rk, v),
{
    let p2 = p.insert(x, y);
    if v == x {
        assert(root_of(p2, rk2, y) == y);
    } else if p.contains_key(v) && p[v] != v {
        assert(v != y);
        lemma_link_root(p, rk, rk2, x, y, p[v]);
    }
}

/// A root of rank `k` or more has at least `k + 1` distinct registered
/// elements around it: itself and one child of each lower rank.
proof fn lemma_rank_witnesses(p: Map<usize, usize>, rk: Map<usize, usize>, y: usize, k: nat) -> (s: Set<usize>)
    requires
        forest_wf(p, rk),
        is_root(p, y),
        k <= rank_of(rk, y),
    ensures
        s.finite(),
        s.len() == k + 1,
        s.subset_of(p.dom()),
        forall|u: usize| #[trigger] s.contains(u) && u != y ==> rank_of(rk, u) < k,
        s.contains(y),
    decreases k,
{
    if k == 0 {
        set![y]
    } else {
        let s0 = lemma_rank_witnesses(p, rk, y, (k - 1) as nat);
        assert(has_child_of_rank(p, rk, y, k - 1));
        let u = choose|u: usize| p.contains_key(u) && u != y && p[u] == y && rank_of(rk, u) == k - 1;
        assert(!s0.contains(u));
        s0.insert(u)
    }
}

/// The rank of a root is below the number of registered elements.
pub proof fn lemma_rank_bound(p: Map<usize, usize>, rk: Map<usize, usize>, y: usize)
    requires
        forest_wf(p, rk),
        is_root(p, y),
        p.dom().finite(),
    ensures
        rank_of(rk, y) < p.dom().len(),
{
    let s = lemma_rank_witnesses(p, rk, y, rank_of(rk, y) as nat);
    vstd::set_lib::lemma_len_subset(s, p.dom());
}

} // verus!
