//! The sliding-window output buffer: decompression output and LZ77
//! back-reference dictionary in one. It is the single choke point for every
//! write the engine makes, so the output-ceiling and back-reference
//! invariants hold regardless of which decode path triggered the write.

use vstd::prelude::*;

use crate::defs::LzmaError;

verus! {

/// What a back-reference copy appends: `len` bytes, each read `dist`
/// positions behind the write position at the moment it is copied, so an
/// overlapping copy (`dist < len`) repeats freshly written bytes.
pub open spec fn copy_bytes(w: Seq<u8>, dist: int, len: nat) -> Seq<u8>
    decreases len,
{
    if len == 0 {
        w
    } else {
        copy_bytes(w.push(w[w.len() - dist]), dist, (len - 1) as nat)
    }
}

pub proof fn lemma_copy_bytes_len(w: Seq<u8>, dist: int, len: nat)
    ensures
        copy_bytes(w, dist, len).len() == w.len() + len,
    decreases len,
{
    if len > 0 {
        lemma_copy_bytes_len(w.push(w[w.len() - dist]), dist, (len - 1) as nat);
    }
}

/// Peeling the recursion from the back instead of the front: copying one
/// more byte appends the byte `dist` behind the end of the shorter copy.
pub proof fn lemma_copy_bytes_snoc(w: Seq<u8>, dist: int, len: nat)
    requires
        1 <= dist <= w.len(),
    ensures
        copy_bytes(w, dist, (len + 1) as nat) == copy_bytes(w, dist, len).push(
            copy_bytes(w, dist, len)[copy_bytes(w, dist, len).len() - dist],
        ),
    decreases len,
{
    let w1 = w.push(w[w.len() - dist]);
    lemma_copy_bytes_len(w, dist, len);
    assert(copy_bytes(w, dist, (len + 1) as nat) == copy_bytes(w1, dist, len));
    if len == 0 {
        assert(copy_bytes(w1, dist, 0) == w1);
        assert(copy_bytes(w, dist, 0) == w);
    } else {
        lemma_copy_bytes_snoc(w1, dist, (len - 1) as nat);
        assert(copy_bytes(w, dist, len) == copy_bytes(w1, dist, (len - 1) as nat));
    }
}

/// The output/dictionary buffer of one decode session.
pub struct Window {
    /// Bytes produced so far; append-only during a session.
    pub data: Vec<u8>,
    /// Caller-declared output ceiling: `data` never grows beyond it.
    pub max_output: usize,
    /// Configured dictionary window: no back-reference may reach farther.
    pub dict: u64,
}

impl Window {
    pub open spec fn wf(self) -> bool {
        self.data@.len() <= self.max_output
    }

    pub fn new(max_output: usize, dict: u64) -> (r: Window)
        ensures
            r.wf(),
            r.data@ == Seq::<u8>::empty(),
            r.max_output == max_output,
            r.dict == dict,
    {
        Window { data: Vec::new(), max_output, dict }
    }

    pub fn len(&self) -> (r: usize)
        ensures
            r == self.data@.len(),
    {
        self.data.len()
    }

    /// The byte `dist` positions behind the write position.
    pub fn byte_at_back(&self, dist: u64) -> (r: u8)
        requires
            1 <= dist <= self.data@.len(),
        ensures
            r == self.data@[self.data@.len() - dist],
    {
        let d = dist as usize;
        self.data[self.data.len() - d]
    }

    /// Appends one decoded byte. Fails with `OutputOverflow` exactly when the
    /// buffer already holds `max_output` bytes, leaving the buffer unchanged.
    pub fn append(&mut self, b: u8) -> (r: Result<(), LzmaError>)
        requires
            old(self).wf(),
        ensures
            final(self).wf(),
            final(self).max_output == old(self).max_output,
            final(self).dict == old(self).dict,
            old(self).data@.len() < old(self).max_output ==> r is Ok && final(self).data@
                == old(self).data@.push(b),
            old(self).data@.len() >= old(self).max_output ==> r == Err::<(), LzmaError>(
                LzmaError::OutputOverflow,
            ) && final(self).data@ == old(self).data@,
    {
        if self.data.len() < self.max_output {
            self.data.push(b);
            Ok(())
        } else {
            Err(LzmaError::OutputOverflow)
        }
    }

    /// Copies `len` bytes from `dist` positions back, byte by byte, so an
    /// overlapping copy repeats freshly written bytes. The outcome is exact
    /// for every input: `InvalidBackReference` when the distance reaches
    /// before the buffer start or beyond the dictionary window,
    /// `OutputOverflow` when the copy would exceed the output ceiling, and
    /// otherwise exactly `copy_bytes` worth of new contents.
    pub fn copy_match(&mut self, dist: u64, len: u32) -> (r: Result<(), LzmaError>)
        requires
            old(self).wf(),
            dist >= 1,
        ensures
            final(self).wf(),
            final(self).max_output == old(self).max_output,
            final(self).dict == old(self).dict,
            (dist > old(self).data@.len() || dist > old(self).dict) ==> r == Err::<(), LzmaError>(
                LzmaError::InvalidBackReference,
            ) && final(self).data@ == old(self).data@,
            (dist <= old(self).data@.len() && dist <= old(self).dict && old(self).data@.len() + len
                > old(self).max_output) ==> r == Err::<(), LzmaError>(LzmaError::OutputOverflow)
                && final(self).data@ == old(self).data@,
            (dist <= old(self).data@.len() && dist <= old(self).dict && old(self).data@.len() + len
                <= old(self).max_output) ==> r is Ok && final(self).data@ == copy_bytes(
                old(self).data@,
                dist as int,
                len as nat,
            ),
    {
        if dist > self.data.len() as u64 || dist > self.dict {
            return Err(LzmaError::InvalidBackReference);
        }
        if len as usize > self.max_output - self.data.len() {
            return Err(LzmaError::OutputOverflow);
        }
        let d = dist as usize;
        let mut i: u32 = 0;
        while i < len
            invariant
                old(self).wf(),
                1 <= d <= old(self).data@.len(),
                d == dist,
                i <= len,
                old(self).data@.len() + len <= old(self).max_output,
                self.data@ == copy_bytes(old(self).data@, d as int, i as nat),
                self.data@.len() == old(self).data@.len() + i,
                self.max_output == old(self).max_output,
                self.dict == old(self).dict,
            decreases len - i,
        {
            proof {
                lemma_copy_bytes_snoc(old(self).data@, d as int, i as nat);
            }
            let b = self.data[self.data.len() - d];
            self.data.push(b);
            i = i + 1;
        }
        Ok(())
    }
}

} // verus!
