use image_cluster::dsu::DisjointSet;
use image_cluster::groups::group_indices;
use image_cluster::pairs::{merge_pairs, similar_pairs};
use image_cluster::Image;

fn img(path: &str, hash: u64) -> Image {
    Image { image_path: String::from(path), hash }
}

#[test]
fn union_find_transitive_chain() {
    let mut d = DisjointSet::new(4);
    d.union(0, 1);
    d.union(1, 2);
    let r0 = d.find_root(0);
    assert_eq!(r0, d.find_root(1));
    assert_eq!(r0, d.find_root(2));
    assert_ne!(r0, d.find_root(3));
}

#[test]
fn union_is_order_independent_for_connectivity() {
    let mut a = DisjointSet::new(5);
    a.union(0, 1);
    a.union(3, 4);
    a.union(1, 3);
    let mut b = DisjointSet::new(5);
    b.union(1, 3);
    b.union(3, 4);
    b.union(0, 1);
    for i in 0..5usize {
        for j in 0..5usize {
            let same_a = a.find_root(i) == a.find_root(j);
            let same_b = b.find_root(i) == b.find_root(j);
            assert_eq!(same_a, same_b);
        }
    }
}

#[test]
fn fresh_partition_is_all_singletons() {
    let mut d = DisjointSet::new(3);
    assert_eq!(d.len(), 3);
    for i in 0..3usize {
        assert_eq!(d.find_root(i), i);
    }
}

#[test]
fn grouping_twice_gives_identical_groups() {
    let mut d = DisjointSet::new(6);
    d.union(0, 2);
    d.union(2, 4);
    d.union(1, 5);
    let first = group_indices(&mut d);
    let second = group_indices(&mut d);
    assert_eq!(first, second);
    assert_eq!(first, vec![vec![0usize, 2, 4], vec![1usize, 5]]);
}

#[test]
fn raising_threshold_keeps_no_extra_pairs() {
    let images = vec![
        img("a.png", 0),
        img("b.png", 0x07),
        img("c.png", 0xFF),
        img("d.png", 0xFFFF_FFFF_FFFF_0000),
    ];
    let loose = similar_pairs(&images, 9, 10);
    let tight = similar_pairs(&images, 61, 64);
    assert!(tight.len() <= loose.len());
    for pair in &tight {
        assert!(loose.contains(pair));
    }
    assert_eq!(loose, vec![(0usize, 1usize), (1usize, 2usize)]);
    assert_eq!(tight, vec![(0usize, 1usize)]);
}

#[test]
fn scanned_pairs_are_upper_triangle_without_duplicates() {
    let images = vec![
        img("a.png", 0),
        img("b.png", 0),
        img("c.png", 1),
    ];
    let pairs = similar_pairs(&images, 9, 10);
    assert_eq!(pairs, vec![(0usize, 1usize), (0usize, 2usize), (1usize, 2usize)]);
    for (i, j) in &pairs {
        assert!(i < j && *j < images.len());
    }
}

#[test]
fn merging_scanned_pairs_connects_exactly_the_clusters() {
    let images = vec![
        img("a.png", 0),
        img("b.png", 1),
        img("c.png", 0xFFFF_FFFF_0000_0000),
        img("d.png", 0xFFFF_FFFF_0000_0001),
    ];
    let pairs = similar_pairs(&images, 9, 10);
    let mut d = DisjointSet::new(4);
    merge_pairs(&mut d, &pairs);
    assert_eq!(d.find_root(0), d.find_root(1));
    assert_eq!(d.find_root(2), d.find_root(3));
    assert_ne!(d.find_root(0), d.find_root(2));
}
