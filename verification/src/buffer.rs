//! The buffer facade: the editable sequence of code points, backed by the
//! splay-balanced rope tree and exposed through positional insert, delete,
//! range read, point access and length operations.

use crate::tree::{concat, length, point_read, point_write, report, seq_of, splay, split, wf, Tree};
use vstd::prelude::*;

verus! {

/// The single failure condition of the buffer API: an offset, start, or
/// start-plus-length argument falls outside the buffer's current bounds. It
/// is reported to the caller as a recoverable error, never as a halt.
#[derive(Clone, Copy, Debug, PartialEq, Eq, Structural)]
pub struct OutOfBounds;

/// An editable sequence of `u32` code points with sub-linear positional
/// insert, delete and range read, represented as a splay-balanced rope.
pub struct Buffer {
    root: Tree,
}

impl View for Buffer {
    type V = Seq<u32>;

    closed spec fn view(&self) -> Seq<u32> {
        seq_of(self.root)
    }
}

impl Buffer {
    #[verifier::type_invariant]
    spec fn inv(self) -> bool {
        wf(self.root)
    }

    /// An empty buffer: no root, zero length.
    pub fn new() -> (b: Buffer)
        ensures
            b@ == Seq::<u32>::empty(),
    {
        Buffer { root: Tree::Empty }
    }

    /// The total number of code points currently stored.
    pub fn len(&self) -> (n: usize)
        ensures
            n as nat == self@.len(),
    {
        proof {
            use_type_invariant(self);
        }
        length(&self.root)
    }

    /// Splices `data` into the buffer so that its first element lands at
    /// offset `idx`: the tree is splayed toward `idx`, split there, and the
    /// two halves are re-concatenated around a fresh leaf owning `data`.
    /// Fails with `OutOfBounds`, leaving the contents unchanged, exactly when
    /// `idx` exceeds the current length.
    pub fn insert(&mut self, idx: usize, data: Vec<u32>) -> (res: Result<(), OutOfBounds>)
        requires
            old(self)@.len() + data@.len() <= usize::MAX,
        ensures
            res is Ok <==> idx as nat <= old(self)@.len(),
            res is Ok ==> final(self)@ == old(self)@.take(idx as int) + data@ + old(self)@.skip(
                idx as int),
            res is Err ==> final(self)@ == old(self)@,
    {
        proof {
            use_type_invariant(&*self);
        }
        let total = length(&self.root);
        if idx > total {
            return Err(OutOfBounds);
        }
        if data.len() == 0 {
            proof {
                assert(self@.take(idx as int) + data@ + self@.skip(idx as int) =~= self@);
            }
            return Ok(());
        }
        let mut root = Tree::Empty;
        core::mem::swap(&mut root, &mut self.root);
        root = splay(root, idx);
        let (left, right, _) = split(root, idx);
        let new_leaf = Tree::Leaf { chunk: data };
        let temp = concat(left, new_leaf);
        self.root = concat(temp, right);
        Ok(())
    }

    /// Removes the half-open range `[idx, idx + len)`: the tree is split at
    /// `idx`, the remainder is split at `len`, the removed middle is dropped
    /// and the outer parts are re-concatenated. Fails with `OutOfBounds`,
    /// leaving the contents unchanged, exactly when the range does not fit in
    /// the current length.
    pub fn delete(&mut self, idx: usize, len: usize) -> (res: Result<(), OutOfBounds>)
        ensures
            res is Ok <==> idx + len <= old(self)@.len(),
            res is Ok ==> final(self)@ == old(self)@.take(idx as int) + old(self)@.skip(
                idx + len),
            res is Err ==> final(self)@ == old(self)@,
    {
        proof {
            use_type_invariant(&*self);
        }
        let total = length(&self.root);
        if len > total || idx > total - len {
            return Err(OutOfBounds);
        }
        let mut root = Tree::Empty;
        core::mem::swap(&mut root, &mut self.root);
        root = splay(root, idx);
        let (left, mut rest, _) = split(root, idx);
        rest = splay(rest, len);
        let (_removed, right, _) = split(rest, len);
        proof {
            assert(seq_of(right) =~= old(self)@.skip(idx + len));
        }
        self.root = concat(left, right);
        Ok(())
    }

    /// Reads the half-open range `[idx, idx + len)` as a fresh vector of
    /// exactly `len` code points, after splaying toward `idx`; the contents
    /// of the buffer are never changed by a read. Fails with `OutOfBounds`,
    /// leaving the contents unchanged, exactly when the range does not fit in
    /// the current length.
    pub fn report(&mut self, idx: usize, len: usize) -> (res: Result<Vec<u32>, OutOfBounds>)
        ensures
            final(self)@ == old(self)@,
            res is Ok <==> idx + len <= old(self)@.len(),
            res matches Ok(v) ==> v@ == old(self)@.subrange(idx as int, idx + len),
    {
        proof {
            use_type_invariant(&*self);
        }
        let total = length(&self.root);
        if len > total || idx > total - len {
            return Err(OutOfBounds);
        }
        let mut root = Tree::Empty;
        core::mem::swap(&mut root, &mut self.root);
        root = splay(root, idx);
        let mut out: Vec<u32> = Vec::new();
        report(&root, idx, len, &mut out);
        self.root = root;
        Ok(out)
    }

    /// Reads the single code point at absolute offset `offset`. Fails with
    /// `OutOfBounds` exactly when `offset` is not strictly inside the
    /// buffer's length.
    pub fn index(&self, offset: usize) -> (res: Result<u32, OutOfBounds>)
        ensures
            res is Ok <==> (offset as nat) < self@.len(),
            res matches Ok(v) ==> v == self@[offset as int],
    {
        proof {
            use_type_invariant(self);
        }
        let total = length(&self.root);
        if offset >= total {
            return Err(OutOfBounds);
        }
        Ok(point_read(&self.root, offset))
    }

    /// Overwrites the single code point at absolute offset `offset` with
    /// `value`, in place in the owning leaf. Fails with `OutOfBounds`,
    /// leaving the contents unchanged, exactly when `offset` is not strictly
    /// inside the buffer's length.
    pub fn index_mut(&mut self, offset: usize, value: u32) -> (res: Result<(), OutOfBounds>)
        ensures
            res is Ok <==> (offset as nat) < old(self)@.len(),
            res is Ok ==> final(self)@ == old(self)@.update(offset as int, value),
            res is Err ==> final(self)@ == old(self)@,
    {
        proof {
            use_type_invariant(&*self);
        }
        let total = length(&self.root);
        if offset >= total {
            return Err(OutOfBounds);
        }
        let mut root = Tree::Empty;
        core::mem::swap(&mut root, &mut self.root);
        root = point_write(root, offset, value);
        self.root = root;
        Ok(())
    }
}

/// Round-trip law: inserting a chunk at `idx` and then deleting exactly that
/// many elements at the same offset restores the prior content. The two
/// sides of the equation are the contents `insert` and then `delete` promise
/// in their contracts, so a successful `insert(idx, data)` followed by
/// `delete(idx, data.len())` leaves the buffer's sequence as it was.
pub proof fn lemma_insert_delete_round_trip(s: Seq<u32>, idx: int, data: Seq<u32>)
    requires
        0 <= idx <= s.len(),
    ensures
        ({
            let spliced = s.take(idx) + data + s.skip(idx);
            spliced.take(idx) + spliced.skip(idx + data.len()) == s
        }),
{
    let spliced = s.take(idx) + data + s.skip(idx);
    assert(spliced.take(idx) =~= s.take(idx));
    assert(spliced.skip(idx + data.len()) =~= s.skip(idx));
    assert(spliced.take(idx) + spliced.skip(idx + data.len()) =~= s);
}

/// A full-range read reproduces the whole content: with the contracts of
/// `len` and `report`, a successful `report(0, len())` returns exactly the
/// buffer's abstract sequence, so the buffer always agrees with an oracle
/// flat sequence maintained alongside it through `insert` and `delete`.
pub proof fn lemma_report_full(s: Seq<u32>)
    ensures
        s.subrange(0, s.len() as int) == s,
{
    assert(s.subrange(0, s.len() as int) =~= s);
}

/// Point-write visibility: after overwriting offset `offset`, any in-range
/// read that covers `offset` sees the new value at the corresponding
/// position. The updated sequence and the subrange are the contents
/// `index_mut` and `report` promise in their contracts.
pub proof fn lemma_point_write_visible(s: Seq<u32>, offset: int, value: u32, start: int, len: int)
    requires
        0 <= start <= offset < start + len,
        start + len <= s.len(),
    ensures
        s.update(offset, value).subrange(start, start + len)[offset - start] == value,
{
}

} // verus!
