use std::collections::HashSet;
use reunion::{UnionFind, UnionFindTrait};

fn create_union_find_usize(size: usize) -> UnionFind {
    UnionFind::with_capacity(size)
}

fn sorted_groups(groups: Vec<HashSet<usize>>) -> Vec<Vec<usize>> {
    let mut out: Vec<Vec<usize>> = groups
        .into_iter()
        .map(|g| {
            let mut v: Vec<usize> = g.into_iter().collect();
            v.sort();
            v
        })
        .collect();
    out.sort();
    out
}

#[test]
fn create_union_find_size() {
    let uf = create_union_find_usize(10);
    assert_eq!(uf.size(), 10);
}

#[test]
fn union() {
    let mut uf = create_union_find_usize(9);
    println!("Initial state: {:?}", &uf);

    assert_eq!(format!("{:?}", &uf.subsets()), "[]");

    uf.union(2, 1);
    uf.union(4, 3);
    uf.union(6, 5);

    let mut hs1 = HashSet::new();
    hs1.insert(1);
    hs1.insert(2);
    let mut hs2 = HashSet::new();
    hs2.insert(3);
    hs2.insert(4);
    let mut hs3 = HashSet::new();
    hs3.insert(5);
    hs3.insert(6);

    let mut subsets = uf.subsets();
    assert_eq!(subsets.len(), 3);

    assert!(&subsets.contains(&hs1));
    assert!(&subsets.contains(&hs2));
    assert!(&subsets.contains(&hs3));

    uf.union(1, 5);

    subsets = uf.subsets();
    assert_eq!(subsets.len(), 2);

    hs3.extend(&hs1);

    assert!(&subsets.contains(&hs3));
    assert!(&subsets.contains(&hs2));

    let mut uf_clone = uf.clone();
    uf_clone.find(2);
    assert_eq!(&uf, &uf_clone);

    assert_eq!(&uf, &uf_clone);
    println!("{:?}", &uf);
}

#[test]
fn fresh_engines_have_no_subsets() {
    let mut a = UnionFind::new();
    assert_eq!(a.size(), 0);
    assert!(a.subsets().is_empty());
    let mut b = UnionFind::default();
    assert_eq!(b.size(), 0);
    assert!(b.subsets().is_empty());
    assert!(b.entries().is_empty());
}

#[test]
fn capacity_seeds_size_only() {
    let mut uf = create_union_find_usize(10);
    assert_eq!(uf.size(), 10);
    assert!(uf.subsets().is_empty());
    assert!(uf.entries().is_empty());
    assert_eq!(uf.size(), 10);
}

#[test]
fn first_find_registers_element_as_own_root() {
    let mut uf = UnionFind::new();
    assert_eq!(uf.find(7), 7);
    assert_eq!(uf.size(), 1);
    assert_eq!(uf.find(7), 7);
    assert_eq!(uf.size(), 1);
    assert_eq!(uf.find(usize::MAX), usize::MAX);
    assert_eq!(uf.size(), 2);
    // Elements seen only by find hold no rank entry and form no subset.
    assert!(uf.subsets().is_empty());
}

#[test]
fn union_registers_operands_and_grows_size() {
    let mut uf = create_union_find_usize(5);
    uf.union(1, 2);
    assert_eq!(uf.size(), 7);
    uf.union(2, 3);
    assert_eq!(uf.size(), 8);
    uf.union(3, 3);
    assert_eq!(uf.size(), 8);
    uf.union(9, 9);
    assert_eq!(uf.size(), 9);
}

#[test]
fn union_makes_find_agree() {
    let mut uf = UnionFind::new();
    uf.union(10, 20);
    let a = uf.find(10);
    let b = uf.find(20);
    assert_eq!(a, b);
    assert_ne!(uf.find(30), a);
}

#[test]
fn equal_ranks_attach_first_root_under_second() {
    let mut uf = UnionFind::new();
    uf.union(2, 1);
    assert_eq!(uf.find(2), 1);
    assert_eq!(uf.find(1), 1);
    // Rank of 1 is now 1, rank of 3 is 0: 3 goes under 1 whichever side it is on.
    uf.union(1, 3);
    assert_eq!(uf.find(3), 1);
    uf.union(4, 1);
    assert_eq!(uf.find(4), 1);
}

#[test]
fn higher_rank_root_absorbs_lower_rank_root() {
    let mut uf = UnionFind::new();
    uf.union(0, 1);
    uf.union(2, 3);
    // Both groups have rank 1; on a tie the root of the first operand goes under the other.
    uf.union(0, 2);
    assert_eq!(uf.find(0), 3);
    assert_eq!(uf.find(1), 3);
    // Root 3 has rank 2 now; a fresh pair of rank 1 is absorbed by it.
    uf.union(5, 4);
    uf.union(3, 5);
    assert_eq!(uf.find(5), 3);
    assert_eq!(uf.find(4), 3);
}

#[test]
fn entries_lists_union_operand_roots() {
    let mut uf = UnionFind::new();
    uf.find(8);
    uf.union(2, 1);
    uf.union(2, 3);
    let mut e = uf.entries();
    e.sort();
    // 2 and 1 were roots of the first union; the second union saw roots 1 and 3.
    assert_eq!(e, vec![1, 2, 3]);
}

#[test]
fn union_twice_gives_same_partition() {
    let mut once = UnionFind::new();
    once.union(1, 2);
    once.union(3, 4);
    let mut twice = UnionFind::new();
    twice.union(1, 2);
    twice.union(1, 2);
    twice.union(3, 4);
    twice.union(3, 4);
    assert_eq!(sorted_groups(once.subsets()), sorted_groups(twice.subsets()));
    assert_eq!(once, twice);
}

#[test]
fn chained_unions_form_one_group() {
    let mut uf = UnionFind::new();
    uf.union(1, 2);
    uf.union(3, 4);
    uf.union(2, 3);
    assert_eq!(sorted_groups(uf.subsets()), vec![vec![1, 2, 3, 4]]);
    let r = uf.find(1);
    assert_eq!(uf.find(2), r);
    assert_eq!(uf.find(3), r);
    assert_eq!(uf.find(4), r);
}

#[test]
fn extra_finds_do_not_change_subsets() {
    let mut plain = UnionFind::new();
    let mut probed = UnionFind::new();
    let pairs = [(1usize, 2usize), (3, 4), (2, 4), (5, 6), (7, 5), (6, 1), (8, 9)];
    for (i, (x, y)) in pairs.iter().enumerate() {
        plain.union(*x, *y);
        probed.union(*x, *y);
        probed.find(*x);
        probed.find(i + 1);
    }
    assert_eq!(sorted_groups(plain.subsets()), sorted_groups(probed.subsets()));
    assert_eq!(
        sorted_groups(plain.subsets()),
        vec![vec![1, 2, 3, 4, 5, 6, 7], vec![8, 9]]
    );
}

#[test]
fn clone_is_independent() {
    let mut uf = UnionFind::new();
    uf.union(1, 2);
    uf.union(3, 4);
    let mut copy = uf.clone();
    assert_eq!(copy, uf);
    assert_eq!(sorted_groups(copy.subsets()), sorted_groups(uf.subsets()));
    assert_eq!(copy.find(2), uf.find(2));
    copy.union(2, 3);
    copy.union(10, 11);
    assert_eq!(sorted_groups(uf.subsets()), vec![vec![1, 2], vec![3, 4]]);
    assert_eq!(uf.size(), 4);
    assert_eq!(copy.size(), 6);
    assert_eq!(
        sorted_groups(copy.subsets()),
        vec![vec![1, 2, 3, 4], vec![10, 11]]
    );
}

#[test]
fn nine_elements_scenario() {
    let mut uf = create_union_find_usize(9);
    uf.union(2, 1);
    uf.union(4, 3);
    uf.union(6, 5);
    assert_eq!(
        sorted_groups(uf.subsets()),
        vec![vec![1, 2], vec![3, 4], vec![5, 6]]
    );
    uf.union(1, 5);
    assert_eq!(sorted_groups(uf.subsets()), vec![vec![1, 2, 5, 6], vec![3, 4]]);
}

#[test]
fn into_subsets_consumes_engine() {
    let mut uf = UnionFind::new();
    uf.union(1, 2);
    uf.union(5, 6);
    assert_eq!(sorted_groups(uf.into_subsets()), vec![vec![1, 2], vec![5, 6]]);
}

#[test]
fn doubling_blocks_merge() {
    let k: usize = 10;
    let n: usize = 1 << k;
    let mut uf = create_union_find_usize(n);
    let mut block: usize = 1;
    while block < n {
        let mut start: usize = 0;
        while start < n {
            uf.union(start, start + block);
            start += 2 * block;
        }
        block *= 2;
    }
    let r = uf.find(0);
    for i in 0..n {
        assert_eq!(uf.find(i), r);
    }
    assert_eq!(uf.subsets().len(), 1);
}

#[test]
fn doubling_blocks_partial_levels() {
    let k: usize = 8;
    let n: usize = 1 << k;
    let levels: usize = 4;
    let mut uf = UnionFind::new();
    let mut block: usize = 1;
    for _ in 0..levels {
        let mut start: usize = 0;
        while start < n {
            uf.union(start, start + block);
            start += 2 * block;
        }
        block *= 2;
    }
    // Blocks of size 2^levels are joined; no two blocks are.
    for a in 0..n {
        for b in [0usize, 1, 15, 16, 17, 100, 255] {
            let same = (a >> levels) == (b >> levels);
            assert_eq!(uf.find(a) == uf.find(b), same);
        }
    }
    assert_eq!(uf.subsets().len(), n >> levels);
    assert_eq!(uf.size(), n);
}

#[test]
fn doubling_merge_level_by_level() {
    let max_rank: usize = 10;
    let num_elements: usize = 1 << max_rank;
    let mut uf = create_union_find_usize(num_elements);
    for level in 0..max_rank {
        let merge_step: usize = 1 << level;
        let increment_step: usize = merge_step << 1;
        let mut idx: usize = 0;
        while idx < num_elements {
            let a = uf.find(idx);
            let b = uf.find(idx + merge_step);
            assert!(a != b);
            uf.union(a, b);
            assert_eq!(uf.find(idx), uf.find(idx + merge_step));
            idx += increment_step;
        }
        let mask: usize = !(increment_step - 1);
        let mut node_a: usize = 3;
        for trial in 0..200usize {
            node_a = (node_a * 37 + 11) % (num_elements - 1);
            let node_b = (node_a + trial * 13) % (num_elements - 1);
            let to_expect = (node_a & mask) == (node_b & mask);
            assert_eq!(uf.find(node_a) == uf.find(node_b), to_expect);
        }
    }
    // The capacity seeds the size; each of the elements registered adds one.
    assert_eq!(uf.size(), 2 * num_elements);
}
