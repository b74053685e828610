//! Laws of the engine that relate several operations, proved from the
//! contracts of `find`, `union`, `subsets` and `clone`.
use vstd::prelude::*;
use crate::union_find::{groups_by, UnionFind, UnionFindTrait};

verus! {

/// `b` has the same representatives, rank entries and ranks as `a`: no
/// operation can tell them apart by the groups they form.
pub open spec fn agree(a: UnionFind, b: UnionFind) -> bool {
    &&& forall|v: usize| #[trigger] a.rep(v) == b.rep(v)
    &&& forall|v: usize| #[trigger] a.ranked(v) == b.ranked(v)
    &&& forall|v: usize| #[trigger] a.rank_at(v) == b.rank_at(v)
}

/// What `find(node)` promises of the state `b` it leaves behind `a`.
pub open spec fn find_step(a: UnionFind, b: UnionFind, node: usize) -> bool {
    &&& b.valid()
    &&& forall|v: usize| #[trigger] b.rep(v) == a.rep(v)
    &&& forall|v: usize| #[trigger] b.knows(v) == (a.knows(v) || v == node)
    &&& b.count() == a.count() + if a.knows(node) { 0int } else { 1int }
    &&& forall|v: usize| #[trigger] b.ranked(v) == a.ranked(v)
    &&& forall|v: usize| #[trigger] b.rank_at(v) == a.rank_at(v)
}

/// The representative that `union(x, y)` leaves for the merged group.
pub open spec fn merged_rep(a: UnionFind, x: usize, y: usize) -> usize {
    if a.rank_at(a.rep(x)) > a.rank_at(a.rep(y)) {
        a.rep(x)
    } else {
        a.rep(y)
    }
}

/// What `union(x, y)` promises of the state `b` it leaves behind `a`.
pub open spec fn union_step(a: UnionFind, b: UnionFind, x: usize, y: usize) -> bool {
    &&& b.valid()
    &&& forall|v: usize| #[trigger]
        b.rep(v) == if a.rep(v) == a.rep(x) || a.rep(v) == a.rep(y) {
            merged_rep(a, x, y)
        } else {
            a.rep(v)
        }
    &&& forall|v: usize| #[trigger] b.knows(v) == (a.knows(v) || v == x || v == y)
    &&& b.count() == a.count() + (if a.knows(x) { 0int } else { 1int }) + (if a.knows(y) || x == y { 0int } else { 1int })
    &&& forall|v: usize| #[trigger] b.ranked(v) == (a.ranked(v) || v == a.rep(x) || v == a.rep(y))
    &&& forall|v: usize| #[trigger]
        b.rank_at(v) == if a.rep(x) != a.rep(y) && v == a.rep(y) && a.rank_at(a.rep(x)) == a.rank_at(a.rep(y)) {
            a.rank_at(v) + 1
        } else {
            a.rank_at(v)
        }
}

/// An engine in which no element holds a rank entry, as every freshly
/// constructed one, has no groups to report.
pub proof fn lemma_fresh_has_no_subsets(uf: UnionFind, groups: Seq<Set<usize>>)
    requires
        uf.members() == Set::<usize>::empty(),
        groups_by(groups, |v: usize| uf.ranked(v), |v: usize| uf.rep(v)),
    ensures
        groups.len() == 0,
{
    if groups.len() > 0 {
        assert(groups[0] != Set::<usize>::empty());
        let v = choose|v: usize| groups[0].contains(v);
        if !groups[0].contains(v) {
            assert(groups[0] =~= Set::<usize>::empty());
        }
        assert(uf.ranked(v));
    }
}

/// An element that has not been registered yet is its own representative,
/// so the first `find` of it returns it.
pub proof fn lemma_first_sight_is_own_rep(uf: UnionFind, a: usize)
    requires
        uf.well_formed(),
        !uf.knows(a),
    ensures
        uf.rep(a) == a,
{
}

/// After `union(x, y)` the two operands have the same representative.
pub proof fn lemma_union_joins(a: UnionFind, b: UnionFind, x: usize, y: usize)
    requires
        a.valid(),
        union_step(a, b, x, y),
    ensures
        b.rep(x) == b.rep(y),
{
    assert(b.rep(x) == merged_rep(a, x, y));
    assert(b.rep(y) == merged_rep(a, x, y));
}

/// A second `union(x, y)` changes no representative, rank entry or rank:
/// the partition is that of a single call.
pub proof fn lemma_union_idempotent(u0: UnionFind, u1: UnionFind, u2: UnionFind, x: usize, y: usize)
    requires
        u0.valid(),
        union_step(u0, u1, x, y),
        union_step(u1, u2, x, y),
    ensures
        agree(u1, u2),
{
    lemma_union_joins(u0, u1, x, y);
    assert(u1.ranked(u1.rep(x)) && u1.ranked(u1.rep(y))) by {
        assert(u1.rep(x) == merged_rep(u0, x, y));
        assert(u0.rep(x) == u0.rep(x));
    }
    assert forall|v: usize| #[trigger] u1.ranked(v) == u2.ranked(v) by {
        assert(u2.ranked(v) == (u1.ranked(v) || v == u1.rep(x) || v == u1.rep(y)));
    }
    assert forall|v: usize| #[trigger] u1.rep(v) == u2.rep(v) by {
        assert(u2.rep(v) == if u1.rep(v) == u1.rep(x) || u1.rep(v) == u1.rep(y) {
            merged_rep(u1, x, y)
        } else {
            u1.rep(v)
        });
    }
    assert forall|v: usize| #[trigger] u1.rank_at(v) == u2.rank_at(v) by {
        assert(u2.rank_at(v) == u1.rank_at(v));
    }
}

/// `union(a, b)`, then `union(c, d)`, then `union(b, c)` leaves the four
/// elements in one group.
pub proof fn lemma_union_chain(
    u0: UnionFind,
    u1: UnionFind,
    u2: UnionFind,
    u3: UnionFind,
    a: usize,
    b: usize,
    c: usize,
    d: usize,
)
    requires
        u0.valid(),
        union_step(u0, u1, a, b),
        union_step(u1, u2, c, d),
        union_step(u2, u3, b, c),
    ensures
        u3.rep(a) == u3.rep(b),
        u3.rep(b) == u3.rep(c),
        u3.rep(c) == u3.rep(d),
{
    lemma_union_joins(u0, u1, a, b);
    lemma_union_joins(u1, u2, c, d);
    lemma_union_joins(u2, u3, b, c);
    assert(u2.rep(a) == u2.rep(b)) by {
        assert(u2.rep(a) == if u1.rep(a) == u1.rep(c) || u1.rep(a) == u1.rep(d) {
            merged_rep(u1, c, d)
        } else {
            u1.rep(a)
        });
        assert(u2.rep(b) == if u1.rep(b) == u1.rep(c) || u1.rep(b) == u1.rep(d) {
            merged_rep(u1, c, d)
        } else {
            u1.rep(b)
        });
    }
    assert(u3.rep(a) == merged_rep(u2, b, c));
    assert(u3.rep(b) == merged_rep(u2, b, c));
    assert(u3.rep(c) == merged_rep(u2, b, c));
    assert(u3.rep(d) == merged_rep(u2, b, c));
}

/// `find` changes no representative, rank entry or rank.
pub proof fn lemma_find_keeps_groups(a: UnionFind, b: UnionFind, node: usize)
    requires
        find_step(a, b, node),
    ensures
        agree(a, b),
{
}

/// `union` on two engines that agree leaves two engines that agree: what a
/// union does depends on representatives and ranks only, never on the shape
/// that path compression left behind.
pub proof fn lemma_union_respects_agreement(
    a: UnionFind,
    a2: UnionFind,
    b: UnionFind,
    b2: UnionFind,
    x: usize,
    y: usize,
)
    requires
        agree(a, b),
        union_step(a, a2, x, y),
        union_step(b, b2, x, y),
    ensures
        agree(a2, b2),
{
    assert(a.rep(x) == b.rep(x) && a.rep(y) == b.rep(y));
    assert(a.rank_at(a.rep(x)) == b.rank_at(b.rep(x)) && a.rank_at(a.rep(y)) == b.rank_at(b.rep(y)));
    assert forall|v: usize| #[trigger] a2.rep(v) == b2.rep(v) by {
        assert(a.rep(v) == b.rep(v));
    }
    assert forall|v: usize| #[trigger] a2.ranked(v) == b2.ranked(v) by {
        assert(a.ranked(v) == b.ranked(v));
    }
    assert forall|v: usize| #[trigger] a2.rank_at(v) == b2.rank_at(v) by {
        assert(a.rank_at(v) == b.rank_at(v));
    }
}

proof fn lemma_groups_embed(
    g1: Seq<Set<usize>>,
    g2: Seq<Set<usize>>,
    m1: spec_fn(usize) -> bool,
    r1: spec_fn(usize) -> usize,
    m2: spec_fn(usize) -> bool,
    r2: spec_fn(usize) -> usize,
)
    requires
        groups_by(g1, m1, r1),
        groups_by(g2, m2, r2),
        forall|v: usize| #[trigger] m1(v) == m2(v),
        forall|v: usize| #[trigger] r1(v) == r2(v),
    ensures
        forall|s: Set<usize>| #[trigger] g1.to_set().contains(s) ==> g2.to_set().contains(s),
{
    assert forall|s: Set<usize>| #[trigger] g1.to_set().contains(s) implies g2.to_set().contains(s) by {
        let i = choose|i: int| 0 <= i < g1.len() && g1[i] == s;
        assert(g1[i] != Set::<usize>::empty());
        if !(exists|v: usize| g1[i].contains(v)) {
            assert(g1[i] =~= Set::<usize>::empty());
        }
        let x = choose|v: usize| g1[i].contains(v);
        assert(m1(x) && m2(x));
        let j = choose|j: int| 0 <= j < g2.len() && #[trigger] g2[j].contains(x);
        assert forall|v: usize| g1[i].contains(v) <==> g2[j].contains(v) by {
            if g1[i].contains(v) {
                assert(m1(v) && m2(v));
                let k = choose|k: int| 0 <= k < g2.len() && #[trigger] g2[k].contains(v);
                assert(r1(v) == r1(x));
                assert(r2(v) == r2(x));
            }
            if g2[j].contains(v) {
                assert(m2(v) && m1(v));
                let k = choose|k: int| 0 <= k < g1.len() && #[trigger] g1[k].contains(v);
                assert(r2(v) == r2(x));
                assert(r1(v) == r1(x));
            }
        }
        assert(g1[i] =~= g2[j]);
        assert(g2[j] == s);
    }
}

/// Engines that agree report the same groups from `subsets`, up to order.
/// With `lemma_find_keeps_groups` and `lemma_union_respects_agreement` this
/// shows that extra `find` calls between unions never change what
/// `subsets` reports.
pub proof fn lemma_agreeing_subsets(a: UnionFind, b: UnionFind, g1: Seq<Set<usize>>, g2: Seq<Set<usize>>)
    requires
        agree(a, b),
        groups_by(g1, |v: usize| a.ranked(v), |v: usize| a.rep(v)),
        groups_by(g2, |v: usize| b.ranked(v), |v: usize| b.rep(v)),
    ensures
        g1.to_set() == g2.to_set(),
{
    let m1 = |v: usize| a.ranked(v);
    let r1 = |v: usize| a.rep(v);
    let m2 = |v: usize| b.ranked(v);
    let r2 = |v: usize| b.rep(v);
    assert forall|v: usize| #[trigger] m1(v) == m2(v) by {}
    assert forall|v: usize| #[trigger] r1(v) == r2(v) by {}
    lemma_groups_embed(g1, g2, m1, r1, m2, r2);
    lemma_groups_embed(g2, g1, m2, r2, m1, r1);
    assert(g1.to_set() =~= g2.to_set());
}

/// A clone holds the same size, parent links and ranks as the original, so
/// it answers every `find` alike and reports the same groups.
pub proof fn lemma_clone_agrees(a: UnionFind, c: UnionFind, g1: Seq<Set<usize>>, g2: Seq<Set<usize>>)
    requires
        c.spec_size() == a.spec_size(),
        c.parent_map() == a.parent_map(),
        c.rank_map() == a.rank_map(),
        groups_by(g1, |v: usize| a.ranked(v), |v: usize| a.rep(v)),
        groups_by(g2, |v: usize| c.ranked(v), |v: usize| c.rep(v)),
    ensures
        agree(a, c),
        c.valid() == a.valid(),
        g1.to_set() == g2.to_set(),
{
    lemma_agreeing_subsets(a, c, g1, g2);
}

} // verus!
