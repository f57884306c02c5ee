//! The rope tree: an owned binary tree whose leaves hold contiguous chunks of
//! code points and whose branches carry the weight invariant used for
//! positional routing.

use vstd::pervasive::VecAdditionalExecFns;
use vstd::prelude::*;

verus! {

/// A rope node. A leaf owns a non-empty chunk of the represented sequence; a
/// branch joins exactly two non-empty subtrees in order and stores as its
/// `weight` the total length of its entire left subtree.
pub enum Tree {
    Empty,
    Leaf { chunk: Vec<u32> },
    Branch { weight: usize, left: Box<Tree>, right: Box<Tree> },
}

/// The sequence of code points a tree represents, in left-to-right order.
pub open spec fn seq_of(t: Tree) -> Seq<u32>
    decreases t,
{
    match t {
        Tree::Empty => Seq::empty(),
        Tree::Leaf { chunk } => chunk@,
        Tree::Branch { weight, left, right } => seq_of(*left) + seq_of(*right),
    }
}

/// Well-formedness: leaves are non-empty, both children of a branch represent
/// non-empty sequences, every branch's weight equals the length of its entire
/// left subtree, and every subtree's length fits in `usize`.
pub open spec fn wf(t: Tree) -> bool
    decreases t,
{
    match t {
        Tree::Empty => true,
        Tree::Leaf { chunk } => 1 <= chunk@.len() <= usize::MAX,
        Tree::Branch { weight, left, right } => {
            &&& wf(*left)
            &&& wf(*right)
            &&& seq_of(*left).len() >= 1
            &&& seq_of(*right).len() >= 1
            &&& weight as nat == seq_of(*left).len()
            &&& seq_of(*left).len() + seq_of(*right).len() <= usize::MAX
        },
    }
}

/// A well-formed tree's length fits in `usize`, and only the empty tree
/// represents the empty sequence.
pub proof fn lemma_wf_len(t: Tree)
    requires
        wf(t),
    ensures
        seq_of(t).len() <= usize::MAX,
        t is Empty <==> seq_of(t).len() == 0,
    decreases t,
{
    match t {
        Tree::Branch { left, right, .. } => {
            lemma_wf_len(*left);
            lemma_wf_len(*right);
        },
        _ => {},
    }
}

/// Total length of the sequence a tree represents, walked down the right
/// spine using the weight invariant.
pub fn length(t: &Tree) -> (n: usize)
    requires
        wf(*t),
    ensures
        n as nat == seq_of(*t).len(),
    decreases *t,
{
    proof {
        lemma_wf_len(*t);
    }
    match t {
        Tree::Empty => 0,
        Tree::Leaf { chunk } => chunk.len(),
        Tree::Branch { weight, left, right } => {
            let rest = length(right);
            *weight + rest
        },
    }
}

/// Rotate right: promotes the left child of a branch to the root of the
/// subtree. The promoted node's old right child becomes the demoted node's new
/// left child, and the demoted node's weight decreases by the promoted node's
/// weight. The represented sequence is unchanged.
pub fn rotate_right(t: Tree) -> (r: Tree)
    requires
        wf(t),
        t is Branch,
        *t->left is Branch,
    ensures
        wf(r),
        r is Branch,
        seq_of(r) == seq_of(t),
        r->weight == (*t->left)->weight,
        *r->left == *(*t->left)->left,
        *r->right is Branch,
        (*r->right)->weight as int == t->weight - (*t->left)->weight,
        *(*r->right)->left == *(*t->left)->right,
        *(*r->right)->right == *t->right,
{
    proof {
        lemma_wf_len(t);
    }
    match t {
        Tree::Branch { weight: w, left, right } => match *left {
            Tree::Branch { weight: lw, left: ll, right: lr } => {
                proof {
                    assert(wf(*t->left));
                    assert(lw as nat == seq_of(*ll).len());
                    assert(w as nat == seq_of(*ll).len() + seq_of(*lr).len());
                }
                let demoted = Tree::Branch { weight: w - lw, left: lr, right };
                proof {
                    assert(wf(demoted));
                }
                let res = Tree::Branch { weight: lw, left: ll, right: Box::new(demoted) };
                proof {
                    assert(wf(res));
                    assert(seq_of(res) =~= seq_of(t));
                }
                res
            },
            _ => vstd::pervasive::unreached(),
        },
        _ => vstd::pervasive::unreached(),
    }
}

/// Rotate left: promotes the right child of a branch to the root of the
/// subtree. The promoted node's old left child becomes the demoted node's new
/// right child, and the promoted node's weight increases by the demoted node's
/// weight. The represented sequence is unchanged.
pub fn rotate_left(t: Tree) -> (r: Tree)
    requires
        wf(t),
        t is Branch,
        *t->right is Branch,
    ensures
        wf(r),
        r is Branch,
        seq_of(r) == seq_of(t),
        r->weight as int == t->weight + (*t->right)->weight,
        *r->right == *(*t->right)->right,
        *r->left is Branch,
        (*r->left)->weight == t->weight,
        *(*r->left)->left == *t->left,
        *(*r->left)->right == *(*t->right)->left,
{
    proof {
        lemma_wf_len(t);
    }
    match t {
        Tree::Branch { weight: w, left, right } => match *right {
            Tree::Branch { weight: rw, left: rl, right: rr } => {
                proof {
                    assert(wf(*t->right));
                    assert((*t->right)->weight == rw);
                    assert(rw as nat == seq_of(*rl).len());
                }
                let demoted = Tree::Branch { weight: w, left, right: rl };
                proof {
                    assert(wf(demoted));
                }
                let res = Tree::Branch { weight: w + rw, left: Box::new(demoted), right: rr };
                proof {
                    assert(wf(res));
                    assert(seq_of(res) =~= seq_of(t));
                }
                res
            },
            _ => vstd::pervasive::unreached(),
        },
        _ => vstd::pervasive::unreached(),
    }
}

/// Whether a tree is a branch node.
fn is_branch(t: &Tree) -> (b: bool)
    ensures
        b == (*t is Branch),
{
    match t {
        Tree::Branch { .. } => true,
        _ => false,
    }
}

/// Whether a tree is a branch whose left child is itself a branch, i.e.
/// whether `rotate_right` may promote that child.
fn left_child_is_branch(t: &Tree) -> (b: bool)
    ensures
        b == (*t is Branch && *t->left is Branch),
{
    match t {
        Tree::Branch { left, .. } => match &**left {
            Tree::Branch { .. } => true,
            _ => false,
        },
        _ => false,
    }
}

/// Whether a tree is a branch whose right child is itself a branch, i.e.
/// whether `rotate_left` may promote that child.
fn right_child_is_branch(t: &Tree) -> (b: bool)
    ensures
        b == (*t is Branch && *t->right is Branch),
{
    match t {
        Tree::Branch { right, .. } => match &**right {
            Tree::Branch { .. } => true,
            _ => false,
        },
        _ => false,
    }
}

/// Self-adjusting descent toward offset `idx`: performs the zig-zig or
/// zig-zag rotation pair at each level and one final rotation at the root,
/// bringing the neighbourhood of `idx` toward the root. Only the tree's shape
/// changes; the represented sequence is untouched. An empty tree and a lone
/// leaf are returned unchanged, as is a branch whose child on the target's
/// side is a lone leaf (a leaf owns no children and cannot be promoted).
/// Whenever that child is a branch, the root is rotated toward the target:
/// splaying into the left subtree strictly lowers the root's weight, and
/// splaying into the right subtree strictly raises it.
pub fn splay(t: Tree, idx: usize) -> (r: Tree)
    requires
        wf(t),
        idx as nat <= seq_of(t).len(),
    ensures
        wf(r),
        seq_of(r) == seq_of(t),
        t is Empty ==> r == t,
        t is Leaf ==> r == t,
        t is Branch ==> r is Branch,
        t is Branch && idx <= t->weight && *t->left is Leaf ==> r == t,
        t is Branch && idx > t->weight && *t->right is Leaf ==> r == t,
        t is Branch && idx <= t->weight && *t->left is Branch ==> r->weight < t->weight,
        t is Branch && idx > t->weight && *t->right is Branch ==> r->weight > t->weight,
    decreases t,
{
    match t {
        Tree::Empty => Tree::Empty,
        Tree::Leaf { chunk } => Tree::Leaf { chunk },
        Tree::Branch { weight: w, left, right } => {
            proof {
                lemma_wf_len(*left);
                lemma_wf_len(*right);
            }
            if idx <= w {
                // The target offset lies in the left subtree.
                match *left {
                    Tree::Branch { weight: lw, left: ll, right: lr } => {
                        proof {
                            assert(wf(*t->left));
                            assert((*t->left)->weight == lw);
                            assert(lw as nat == seq_of(*ll).len());
                        }
                        let mid: Tree;
                        if idx <= lw {
                            // zig-zig: recurse into the left-left grandchild.
                            let ll2 = splay(*ll, idx);
                            let new_left = Tree::Branch {
                                weight: lw,
                                left: Box::new(ll2),
                                right: lr,
                            };
                            proof {
                                assert(wf(new_left));
                            }
                            let t1 = Tree::Branch { weight: w, left: Box::new(new_left), right };
                            proof {
                                assert(wf(t1));
                                assert(seq_of(t1) =~= seq_of(t));
                            }
                            mid = rotate_right(t1);
                        } else {
                            // zig-zag: recurse into the left-right grandchild.
                            let lr2 = splay(*lr, idx - lw);
                            let lr2_is_branch = is_branch(&lr2);
                            let mut new_left = Tree::Branch {
                                weight: lw,
                                left: ll,
                                right: Box::new(lr2),
                            };
                            proof {
                                assert(wf(new_left));
                                assert(seq_of(new_left) =~= seq_of(*t->left));
                            }
                            if lr2_is_branch {
                                new_left = rotate_left(new_left);
                            }
                            let t1 = Tree::Branch { weight: w, left: Box::new(new_left), right };
                            proof {
                                assert(wf(t1));
                                assert(seq_of(t1) =~= seq_of(t));
                            }
                            mid = t1;
                        }
                        if left_child_is_branch(&mid) {
                            rotate_right(mid)
                        } else {
                            mid
                        }
                    },
                    other => {
                        // The left child is a lone leaf: there is no deeper
                        // level to descend into, and a leaf cannot be
                        // promoted, so the shape stays as it is.
                        Tree::Branch { weight: w, left: Box::new(other), right }
                    },
                }
            } else {
                // The target offset lies in the right subtree.
                let new_idx = idx - w;
                match *right {
                    Tree::Branch { weight: rw, left: rl, right: rr } => {
                        proof {
                            assert(wf(*t->right));
                            assert((*t->right)->weight == rw);
                            assert(rw as nat == seq_of(*rl).len());
                        }
                        let mid: Tree;
                        if new_idx <= rw {
                            // zag-zig: recurse into the right-left grandchild.
                            let rl2 = splay(*rl, new_idx);
                            let rl2_is_branch = is_branch(&rl2);
                            let mut new_right = Tree::Branch {
                                weight: rw,
                                left: Box::new(rl2),
                                right: rr,
                            };
                            proof {
                                assert(wf(new_right));
                                assert(seq_of(new_right) =~= seq_of(*t->right));
                            }
                            if rl2_is_branch {
                                new_right = rotate_right(new_right);
                            }
                            let t1 = Tree::Branch { weight: w, left, right: Box::new(new_right) };
                            proof {
                                assert(wf(t1));
                                assert(seq_of(t1) =~= seq_of(t));
                            }
                            mid = t1;
                        } else {
                            // zag-zag: recurse into the right-right grandchild.
                            let rr2 = splay(*rr, new_idx - rw);
                            let new_right = Tree::Branch {
                                weight: rw,
                                left: rl,
                                right: Box::new(rr2),
                            };
                            proof {
                                assert(wf(new_right));
                            }
                            let t1 = Tree::Branch { weight: w, left, right: Box::new(new_right) };
                            proof {
                                assert(wf(t1));
                                assert(seq_of(t1) =~= seq_of(t));
                            }
                            mid = rotate_left(t1);
                        }
                        if right_child_is_branch(&mid) {
                            rotate_left(mid)
                        } else {
                            mid
                        }
                    },
                    other => {
                        // The right child is a lone leaf: nothing deeper to
                        // descend into, and a leaf cannot be promoted.
                        Tree::Branch { weight: w, left, right: Box::new(other) }
                    },
                }
            }
        },
    }
}

/// Whether a tree is the empty tree.
fn is_empty_tree(t: &Tree) -> (b: bool)
    ensures
        b == (*t is Empty),
{
    match t {
        Tree::Empty => true,
        _ => false,
    }
}

/// Joins two trees in order. Concatenating with an empty tree returns the
/// other operand unchanged; otherwise the left operand is splayed to its
/// maximum position and the two trees are joined under a fresh branch whose
/// weight is the already-known total length of the left operand.
pub fn concat(left: Tree, right: Tree) -> (t: Tree)
    requires
        wf(left),
        wf(right),
        seq_of(left).len() + seq_of(right).len() <= usize::MAX,
    ensures
        wf(t),
        seq_of(t) == seq_of(left) + seq_of(right),
        left is Empty ==> t == right,
        right is Empty ==> t == left,
        !(left is Empty) && !(right is Empty) ==> {
            &&& t is Branch
            &&& t->weight as nat == seq_of(left).len()
            &&& seq_of(*t->left) == seq_of(left)
            &&& *t->right == right
        },
{
    proof {
        lemma_wf_len(left);
        lemma_wf_len(right);
    }
    if is_empty_tree(&left) {
        proof {
            assert(seq_of(left) + seq_of(right) =~= seq_of(right));
        }
        return right;
    }
    if is_empty_tree(&right) {
        proof {
            assert(seq_of(left) + seq_of(right) =~= seq_of(left));
        }
        return left;
    }
    let n = length(&left);
    let rotated = splay(left, n);
    Tree::Branch { weight: n, left: Box::new(rotated), right: Box::new(right) }
}

/// Partitions the represented sequence into `[0, index)` and `[index, n)`,
/// returned as two independent trees, together with the length of the
/// right-hand tree so callers can do follow-on trimming without a second
/// length walk. A cut exactly at a leaf's boundary hands back that leaf
/// itself, unchanged, beside an empty tree; a zero-length leaf is never
/// created.
pub fn split(t: Tree, index: usize) -> (res: (Tree, Tree, usize))
    requires
        wf(t),
        index as nat <= seq_of(t).len(),
    ensures
        wf(res.0),
        wf(res.1),
        seq_of(res.0) == seq_of(t).take(index as int),
        seq_of(res.1) == seq_of(t).skip(index as int),
        res.2 as nat == seq_of(t).len() - index as nat,
        t is Leaf && index == 0 ==> res.1 == t,
        t is Leaf && index as nat == seq_of(t).len() ==> res.0 == t,
    decreases t,
{
    proof {
        lemma_wf_len(t);
    }
    match t {
        Tree::Empty => {
            proof {
                assert(seq_of(Tree::Empty).take(index as int) =~= seq_of(Tree::Empty));
                assert(seq_of(Tree::Empty).skip(index as int) =~= seq_of(Tree::Empty));
            }
            (Tree::Empty, Tree::Empty, 0)
        },
        Tree::Leaf { chunk } => {
            let n = chunk.len();
            if index == 0 {
                proof {
                    assert(chunk@.take(0) =~= Seq::<u32>::empty());
                    assert(chunk@.skip(0) =~= chunk@);
                }
                (Tree::Empty, Tree::Leaf { chunk }, n)
            } else if index == n {
                proof {
                    assert(chunk@.take(n as int) =~= chunk@);
                    assert(chunk@.skip(n as int) =~= Seq::<u32>::empty());
                }
                (Tree::Leaf { chunk }, Tree::Empty, 0)
            } else {
                // Cut the leaf's chunk in two at the leaf-relative index.
                let mut chunk = chunk;
                let mut right_chunk: Vec<u32> = Vec::new();
                let mut i = index;
                while i < n
                    invariant
                        index <= i <= n,
                        n == chunk@.len(),
                        right_chunk@ == chunk@.subrange(index as int, i as int),
                    decreases n - i,
                {
                    let v = chunk[i];
                    right_chunk.push(v);
                    proof {
                        assert(right_chunk@ =~= chunk@.subrange(index as int, i + 1));
                    }
                    i = i + 1;
                }
                chunk.truncate(index);
                let rlen = right_chunk.len();
                proof {
                    assert(right_chunk@ =~= seq_of(t).skip(index as int));
                }
                (Tree::Leaf { chunk }, Tree::Leaf { chunk: right_chunk }, rlen)
            }
        },
        Tree::Branch { weight, left, right } => {
            proof {
                assert(wf(*t->left));
                assert(wf(*t->right));
                lemma_wf_len(*left);
                lemma_wf_len(*right);
            }
            if weight < index {
                // The cut point lies in the right subtree: keep this node and
                // its left subtree, and recurse right with a reduced index.
                let (new_right, right_split, right_split_size) = split(*right, index - weight);
                proof {
                    lemma_wf_len(new_right);
                    assert(seq_of(new_right).len() == index - weight >= 1);
                }
                let keep = Tree::Branch { weight, left, right: Box::new(new_right) };
                proof {
                    assert(wf(keep));
                    assert(seq_of(keep) =~= seq_of(t).take(index as int));
                    assert(seq_of(*t->right).skip(index - weight) =~= seq_of(t).skip(
                        index as int));
                }
                (keep, right_split, right_split_size)
            } else {
                // The cut point lies in (or at the edge of) the left subtree:
                // everything displaced from it, and the whole right subtree,
                // belong past the cut point.
                let (new_left, right_split, right_split_size) = split(*left, index);
                let right_len = length(&right);
                proof {
                    assert(seq_of(right_split).len() + seq_of(*t->right).len() <= usize::MAX);
                }
                let joined = concat(right_split, *right);
                proof {
                    assert(seq_of(new_left) =~= seq_of(t).take(index as int));
                    assert(seq_of(joined) =~= seq_of(t).skip(index as int));
                }
                (new_left, joined, right_split_size + right_len)
            }
        },
    }
}

/// Split and concat are structural inverses on content: cutting a sequence
/// at any in-range point and joining the two parts back together reproduces
/// the sequence unchanged. Together with the contracts of `split` (which
/// returns the takes and skips of the tree's sequence) and `concat` (which
/// returns their concatenation), this says that `concat` applied to the two
/// trees `split` returns reproduces the represented sequence of the tree
/// that was split, whatever shape the result takes.
pub proof fn lemma_split_concat_inverse(s: Seq<u32>, i: int)
    requires
        0 <= i <= s.len(),
    ensures
        s.take(i) + s.skip(i) == s,
{
    assert(s.take(i) + s.skip(i) =~= s);
}

/// Range read: appends to `out` exactly the `len` code points of the tree's
/// represented sequence starting at offset `idx`, collected leaf by leaf in
/// left-to-right order without altering the tree. Returns how many code
/// points were appended, which is always exactly `len`.
pub fn report(t: &Tree, idx: usize, len: usize, out: &mut Vec<u32>) -> (n: usize)
    requires
        wf(*t),
        idx + len <= seq_of(*t).len(),
    ensures
        n == len,
        final(out)@ == old(out)@ + seq_of(*t).subrange(idx as int, idx + len),
    decreases *t,
{
    proof {
        lemma_wf_len(*t);
    }
    if len == 0 {
        proof {
            assert(old(out)@ + seq_of(*t).subrange(idx as int, idx as int) =~= old(out)@);
        }
        return 0;
    }
    match t {
        Tree::Empty => vstd::pervasive::unreached(),
        Tree::Leaf { chunk } => {
            let mut i = idx;
            let end = idx + len;
            while i < end
                invariant
                    idx <= i <= end,
                    end == idx + len <= chunk@.len(),
                    out@ == old(out)@ + chunk@.subrange(idx as int, i as int),
                decreases end - i,
            {
                let v = chunk[i];
                out.push(v);
                proof {
                    assert(out@ =~= old(out)@ + chunk@.subrange(idx as int, i + 1));
                }
                i = i + 1;
            }
            len
        },
        Tree::Branch { weight, left, right } => {
            proof {
                assert(wf(*t->left));
                assert(wf(*t->right));
            }
            let w = *weight;
            if idx >= w {
                // The whole range lies in the right subtree.
                let n = report(right, idx - w, len, out);
                proof {
                    assert(seq_of(*t->right).subrange(idx - w, idx - w + len) =~= seq_of(
                        *t).subrange(idx as int, idx + len));
                }
                n
            } else {
                let avail = w - idx;
                if len <= avail {
                    // The whole range lies in the left subtree.
                    let n = report(left, idx, len, out);
                    proof {
                        assert(seq_of(*t->left).subrange(idx as int, idx + len) =~= seq_of(
                            *t).subrange(idx as int, idx + len));
                    }
                    n
                } else {
                    // The range straddles the two subtrees.
                    let n1 = report(left, idx, avail, out);
                    let n2 = report(right, 0, len - avail, out);
                    proof {
                        assert(seq_of(*t->left).subrange(idx as int, idx + avail) + seq_of(
                            *t->right).subrange(0, len - avail) =~= seq_of(*t).subrange(
                            idx as int, idx + len));
                        assert(out@ =~= old(out)@ + seq_of(*t).subrange(idx as int, idx + len));
                    }
                    n1 + n2
                }
            }
        },
    }
}

/// Point read: the code point at absolute offset `offset`, found by routing
/// through the weight invariant down to the owning leaf.
pub fn point_read(t: &Tree, offset: usize) -> (v: u32)
    requires
        wf(*t),
        (offset as nat) < seq_of(*t).len(),
    ensures
        v == seq_of(*t)[offset as int],
    decreases *t,
{
    proof {
        lemma_wf_len(*t);
    }
    match t {
        Tree::Empty => vstd::pervasive::unreached(),
        Tree::Leaf { chunk } => chunk[offset],
        Tree::Branch { weight, left, right } => {
            proof {
                assert(wf(*t->left));
                assert(wf(*t->right));
            }
            let w = *weight;
            if offset < w {
                point_read(left, offset)
            } else {
                point_read(right, offset - w)
            }
        },
    }
}

/// Point write: replaces the code point at absolute offset `offset`, routing
/// through the weight invariant down to the owning leaf. Only that one
/// element of the represented sequence changes; the tree's shape and all
/// weights are untouched.
pub fn point_write(t: Tree, offset: usize, value: u32) -> (r: Tree)
    requires
        wf(t),
        (offset as nat) < seq_of(t).len(),
    ensures
        wf(r),
        seq_of(r) == seq_of(t).update(offset as int, value),
    decreases t,
{
    proof {
        lemma_wf_len(t);
    }
    match t {
        Tree::Empty => vstd::pervasive::unreached(),
        Tree::Leaf { chunk } => {
            let mut chunk = chunk;
            chunk.set(offset, value);
            Tree::Leaf { chunk }
        },
        Tree::Branch { weight, left, right } => {
            proof {
                assert(wf(*t->left));
                assert(wf(*t->right));
            }
            if offset < weight {
                let new_left = point_write(*left, offset, value);
                let res = Tree::Branch { weight, left: Box::new(new_left), right };
                proof {
                    assert(wf(res));
                    assert(seq_of(res) =~= seq_of(t).update(offset as int, value));
                }
                res
            } else {
                let new_right = point_write(*right, offset - weight, value);
                let res = Tree::Branch { weight, left, right: Box::new(new_right) };
                proof {
                    assert(wf(res));
                    assert(seq_of(res) =~= seq_of(t).update(offset as int, value));
                }
                res
            }
        },
    }
}

} // verus!
