use ropebuf::tree;
use ropebuf::tree::Tree;

fn sample_tree() -> Tree {
    // [1, 2] ++ ([3] ++ [4, 5])
    Tree::Branch {
        weight: 2,
        left: Box::new(Tree::Leaf { chunk: vec![1, 2] }),
        right: Box::new(Tree::Branch {
            weight: 1,
            left: Box::new(Tree::Leaf { chunk: vec![3] }),
            right: Box::new(Tree::Leaf { chunk: vec![4, 5] }),
        }),
    }
}

fn read_all(t: &Tree) -> Vec<u32> {
    let n = tree::length(t);
    let mut out = Vec::new();
    tree::report(t, 0, n, &mut out);
    out
}

#[test]
fn length_walks_the_right_spine() {
    assert_eq!(tree::length(&Tree::Empty), 0);
    assert_eq!(tree::length(&Tree::Leaf { chunk: vec![9, 9, 9] }), 3);
    assert_eq!(tree::length(&sample_tree()), 5);
}

#[test]
fn split_then_concat_reproduces_the_sequence() {
    for i in 0..=5usize {
        let (left, right, right_size) = tree::split(sample_tree(), i);
        assert_eq!(right_size, 5 - i);
        let joined = tree::concat(left, right);
        assert_eq!(read_all(&joined), vec![1, 2, 3, 4, 5]);
    }
}

#[test]
fn split_partitions_the_sequence() {
    let (left, right, right_size) = tree::split(sample_tree(), 3);
    assert_eq!(read_all(&left), vec![1, 2, 3]);
    assert_eq!(read_all(&right), vec![4, 5]);
    assert_eq!(right_size, 2);
}

#[test]
fn split_inside_a_leaf_cuts_its_chunk() {
    let (left, right, right_size) = tree::split(Tree::Leaf { chunk: vec![1, 2, 3, 4] }, 1);
    assert_eq!(read_all(&left), vec![1]);
    assert_eq!(read_all(&right), vec![2, 3, 4]);
    assert_eq!(right_size, 3);
}

#[test]
fn concat_with_empty_returns_the_other_operand() {
    let t = tree::concat(Tree::Empty, sample_tree());
    assert_eq!(read_all(&t), vec![1, 2, 3, 4, 5]);
    let t = tree::concat(sample_tree(), Tree::Empty);
    assert_eq!(read_all(&t), vec![1, 2, 3, 4, 5]);
}

#[test]
fn concat_joins_in_order() {
    let t = tree::concat(
        Tree::Leaf { chunk: vec![1, 2] },
        Tree::Leaf { chunk: vec![3, 4] },
    );
    assert_eq!(tree::length(&t), 4);
    assert_eq!(read_all(&t), vec![1, 2, 3, 4]);
    match t {
        Tree::Branch { weight, right, .. } => {
            assert_eq!(weight, 2);
            match *right {
                Tree::Leaf { chunk } => assert_eq!(chunk, vec![3, 4]),
                _ => panic!("the right operand should become the right subtree unchanged"),
            }
        },
        _ => panic!("joining two non-empty trees should yield a branch"),
    }
}

#[test]
fn splay_preserves_the_sequence_at_every_offset() {
    for i in 0..=5usize {
        let t = tree::splay(sample_tree(), i);
        assert_eq!(tree::length(&t), 5);
        assert_eq!(read_all(&t), vec![1, 2, 3, 4, 5]);
    }
}

#[test]
fn splay_leaves_empty_and_lone_leaf_unchanged() {
    assert_eq!(read_all(&tree::splay(Tree::Empty, 0)), Vec::<u32>::new());
    let t = tree::splay(Tree::Leaf { chunk: vec![8, 9] }, 1);
    assert_eq!(read_all(&t), vec![8, 9]);
}

#[test]
fn rotations_preserve_the_sequence() {
    let t = Tree::Branch {
        weight: 3,
        left: Box::new(Tree::Branch {
            weight: 1,
            left: Box::new(Tree::Leaf { chunk: vec![1] }),
            right: Box::new(Tree::Leaf { chunk: vec![2, 3] }),
        }),
        right: Box::new(Tree::Leaf { chunk: vec![4] }),
    };
    let rotated = tree::rotate_right(t);
    assert_eq!(read_all(&rotated), vec![1, 2, 3, 4]);
    let back = tree::rotate_left(rotated);
    assert_eq!(read_all(&back), vec![1, 2, 3, 4]);
}

#[test]
fn rotate_right_promotes_the_left_child() {
    let t = Tree::Branch {
        weight: 2,
        left: Box::new(Tree::Branch {
            weight: 1,
            left: Box::new(Tree::Leaf { chunk: vec![1] }),
            right: Box::new(Tree::Leaf { chunk: vec![2] }),
        }),
        right: Box::new(Tree::Leaf { chunk: vec![3] }),
    };
    match tree::rotate_right(t) {
        Tree::Branch { weight, left, right } => {
            assert_eq!(weight, 1);
            match *left {
                Tree::Leaf { chunk } => assert_eq!(chunk, vec![1]),
                _ => panic!("promoted node's left child should be the old left-left leaf"),
            }
            match *right {
                Tree::Branch { weight, left, right } => {
                    assert_eq!(weight, 1);
                    match *left {
                        Tree::Leaf { chunk } => assert_eq!(chunk, vec![2]),
                        _ => panic!("demoted node's left child should be the promoted node's old right child"),
                    }
                    match *right {
                        Tree::Leaf { chunk } => assert_eq!(chunk, vec![3]),
                        _ => panic!("demoted node should keep its right child"),
                    }
                },
                _ => panic!("the demoted node should be a branch"),
            }
        },
        _ => panic!("the rotated tree should be a branch"),
    }
}

#[test]
fn splay_moves_the_root_toward_the_offset() {
    // The sample's right child is a branch: splaying toward the right
    // raises the root's weight.
    match tree::splay(sample_tree(), 5) {
        Tree::Branch { weight, .. } => assert!(weight > 2),
        _ => panic!("splaying a branch yields a branch"),
    }
    // The sample's left child is a lone leaf: splaying toward it cannot
    // promote anything and leaves the shape alone.
    match tree::splay(sample_tree(), 0) {
        Tree::Branch { weight, .. } => assert_eq!(weight, 2),
        _ => panic!("splaying a branch yields a branch"),
    }
}

#[test]
fn split_at_leaf_boundary_returns_the_leaf_itself() {
    let (left, right, right_size) = tree::split(Tree::Leaf { chunk: vec![7, 8] }, 0);
    assert!(matches!(left, Tree::Empty));
    match right {
        Tree::Leaf { chunk } => assert_eq!(chunk, vec![7, 8]),
        _ => panic!("the whole leaf should come back on the right"),
    }
    assert_eq!(right_size, 2);

    let (left, right, right_size) = tree::split(Tree::Leaf { chunk: vec![7, 8] }, 2);
    match left {
        Tree::Leaf { chunk } => assert_eq!(chunk, vec![7, 8]),
        _ => panic!("the whole leaf should come back on the left"),
    }
    assert!(matches!(right, Tree::Empty));
    assert_eq!(right_size, 0);
}

#[test]
fn report_reads_any_subrange() {
    let t = sample_tree();
    let mut out = Vec::new();
    let n = tree::report(&t, 1, 3, &mut out);
    assert_eq!(n, 3);
    assert_eq!(out, vec![2, 3, 4]);
}

#[test]
fn point_read_and_write_route_by_weight() {
    let t = sample_tree();
    assert_eq!(tree::point_read(&t, 0), 1);
    assert_eq!(tree::point_read(&t, 2), 3);
    assert_eq!(tree::point_read(&t, 4), 5);
    let t = tree::point_write(t, 2, 42);
    assert_eq!(tree::point_read(&t, 2), 42);
    assert_eq!(read_all(&t), vec![1, 2, 42, 4, 5]);
}
