use suffix::fenwick_tree_2d::FenwickTree2d;
use suffix::sparse_table::{ilog2, And, Gcd, Max, Min, Or, SparseTable};

#[test]
fn fenwick_rectangle_sums() {
    let mut t = FenwickTree2d::new(4, 5);
    t.add(1, 1, 3);
    t.add(2, 3, 5);
    t.add(4, 5, 7);
    t.add(3, 2, 1);
    assert_eq!(t.sum(4, 5), 16);
    assert_eq!(t.sum(2, 3), 8);
    assert_eq!(t.sum(1, 1), 3);
    assert_eq!(t.sum(0, 5), 0);
    assert_eq!(t.query(2, 2, 3, 3), 6);
    assert_eq!(t.query(4, 5, 4, 5), 7);
    assert_eq!(t.query(1, 1, 4, 5), 16);
}

#[test]
fn hash_of_equal_windows_agree() {
    let s: Vec<u8> = b"abcabcxabc".to_vec();
    let h = suffix::hash::Hash::new(&s, 131, vec![1_000_000_007, 998_244_353]);
    assert_eq!(h.get(0, 2), h.get(3, 5));
    assert_eq!(h.get(0, 2), h.get(7, 9));
    assert_ne!(h.get(0, 2), h.get(1, 3));
    assert_eq!(h.get(0, 2).len(), 2);
}

#[test]
fn hash_value_of_a_window() {
    let s: Vec<u8> = vec![1, 2, 3];
    let h = suffix::hash::Hash::new(&s, 10, vec![1000]);
    assert_eq!(h.get(0, 2), vec![123]);
    assert_eq!(h.get(1, 2), vec![23]);
    assert_eq!(h.get(2, 2), vec![3]);
}

#[test]
fn floor_log2() {
    assert_eq!(ilog2(1), 0);
    assert_eq!(ilog2(2), 1);
    assert_eq!(ilog2(7), 2);
    assert_eq!(ilog2(8), 3);
    assert_eq!(ilog2(1000), 9);
}

#[test]
fn sparse_table_range_queries() {
    let a: Vec<u64> = vec![5, 2, 8, 6, 3, 7, 1, 4, 9];
    let mx: SparseTable<Max> = SparseTable::new(a.clone());
    let mn: SparseTable<Min> = SparseTable::new(a.clone());
    for l in 0..a.len() {
        for r in l..a.len() {
            assert_eq!(mx.query(l, r), *a[l..=r].iter().max().unwrap());
            assert_eq!(mn.query(l, r), *a[l..=r].iter().min().unwrap());
        }
    }
}

#[test]
fn sparse_table_bitwise_and_gcd() {
    let a: Vec<u64> = vec![12, 18, 24, 36, 6, 30];
    let g: SparseTable<Gcd> = SparseTable::new(a.clone());
    assert_eq!(g.query(0, 1), 6);
    assert_eq!(g.query(2, 3), 12);
    assert_eq!(g.query(0, 5), 6);
    let b: Vec<u64> = vec![0b1100, 0b1010, 0b0110, 0b1111];
    let and: SparseTable<And> = SparseTable::new(b.clone());
    let or: SparseTable<Or> = SparseTable::new(b.clone());
    assert_eq!(and.query(0, 1), 0b1000);
    assert_eq!(and.query(0, 2), 0);
    assert_eq!(or.query(0, 2), 0b1110);
    assert_eq!(or.query(3, 3), 0b1111);
}
