use ballmaker::bvh::{Bvh, Child};

fn leaves(b: &Bvh, c: Child, out: &mut Vec<usize>) {
    match c {
        Child::Prim(p) => out.push(p),
        Child::Node(i) => {
            let n = b.node(i);
            leaves(b, n.left, out);
            leaves(b, n.right, out);
        }
    }
}

fn size(b: &Bvh, c: Child) -> usize {
    let mut v = Vec::new();
    leaves(b, c, &mut v);
    v.len()
}

fn check_balanced(b: &Bvh, c: Child) {
    if let Child::Node(i) = c {
        let n = b.node(i);
        if let Child::Node(j) = n.left {
            assert!(j < i);
        }
        if let Child::Node(j) = n.right {
            assert!(j < i);
        }
        assert!(size(b, n.left) <= size(b, n.right));
        check_balanced(b, n.left);
        check_balanced(b, n.right);
    }
}

#[test]
fn single_primitive_on_both_sides() {
    let b = Bvh::from_slice(1, |s: &Vec<usize>| vec![0; s.len()]);
    assert_eq!(b.node_count(), 1);
    assert_eq!(b.root(), Child::Node(0));
    let n = b.node(0);
    assert_eq!((n.left, n.right), (Child::Prim(0), Child::Prim(0)));
}

#[test]
fn two_primitives_one_node() {
    let b = Bvh::from_slice(2, |s: &Vec<usize>| vec![0; s.len()]);
    assert_eq!(b.node_count(), 1);
    let n = b.node(0);
    assert_eq!((n.left, n.right), (Child::Prim(0), Child::Prim(1)));
}

#[test]
fn three_primitives_split_by_key() {
    // keys put primitive 2 first, then 0, then 1
    let b = Bvh::from_slice(3, |s: &Vec<usize>| s.iter().map(|&p| [5u64, 9, 1][p]).collect());
    let root = b.root();
    let Child::Node(r) = root else { panic!("root is a node") };
    let n = b.node(r);
    assert_eq!(n.left, Child::Prim(2));
    let mut right = Vec::new();
    leaves(&b, n.right, &mut right);
    assert_eq!(right, vec![0, 1]);
}

#[test]
fn many_primitives_balanced_and_complete() {
    for count in 1..40usize {
        let b = Bvh::from_slice(count, |s: &Vec<usize>| s.iter().map(|&p| ((p * 37) % 11) as u64).collect());
        let mut all = Vec::new();
        leaves(&b, b.root(), &mut all);
        all.sort();
        all.dedup();
        assert_eq!(all, (0..count).collect::<Vec<_>>());
        if count >= 2 {
            assert_eq!(size(&b, b.root()), count);
        }
        check_balanced(&b, b.root());
    }
}

#[test]
fn equal_keys_keep_list_order() {
    let b = Bvh::from_slice(5, |s: &Vec<usize>| vec![0; s.len()]);
    let mut all = Vec::new();
    leaves(&b, b.root(), &mut all);
    assert_eq!(all, vec![0, 1, 2, 3, 4]);
    let Child::Node(r) = b.root() else { panic!("root is a node") };
    let n = b.node(r);
    assert_eq!(size(&b, n.left), 2);
    assert_eq!(size(&b, n.right), 3);
}

#[test]
fn left_half_holds_smallest_keys() {
    let keys = [7u64, 3, 9, 1, 5, 8];
    let b = Bvh::from_slice(6, |s: &Vec<usize>| s.iter().map(|&p| keys[p]).collect());
    let Child::Node(r) = b.root() else { panic!("root is a node") };
    let n = b.node(r);
    let mut left = Vec::new();
    leaves(&b, n.left, &mut left);
    left.sort();
    assert_eq!(left, vec![1, 3, 4]);
}
