//! The line source: a forward-only cursor over a byte buffer that yields
//! one raw line at a time, each line running up to and including the next
//! line feed, or to the end of the input.

use vstd::prelude::*;

verus! {

/// The length of the first raw line of `r`: up to and including the
/// first line feed, or all of `r` when none occurs.
pub open spec fn raw_line_len(r: Seq<u8>) -> int
    decreases r.len(),
{
    if r.len() == 0 {
        0
    } else if r[0] == 10 {
        1
    } else {
        1 + raw_line_len(r.skip(1))
    }
}

/// The first raw line of `r`.
pub open spec fn raw_line(r: Seq<u8>) -> Seq<u8> {
    r.take(raw_line_len(r))
}

/// A raw line is never longer than the input, and never empty when the
/// input is not.
pub proof fn lemma_raw_line_len_bounds(r: Seq<u8>)
    ensures
        0 <= raw_line_len(r) <= r.len(),
        r.len() > 0 ==> 1 <= raw_line_len(r),
    decreases r.len(),
{
    if r.len() > 0 && r[0] != 10 {
        lemma_raw_line_len_bounds(r.skip(1));
    }
}

/// If the first `i` bytes of `r` are not line feeds and byte `i` (when it
/// exists) is one, the first raw line covers `i + 1` bytes, or all of `r`
/// when no line feed occurs.
proof fn lemma_raw_line_len_at(r: Seq<u8>, i: int)
    requires
        0 <= i <= r.len(),
        forall|j: int| 0 <= j < i ==> r[j] != 10,
        i < r.len() ==> r[i] == 10,
    ensures
        raw_line_len(r) == if i < r.len() {
            i + 1
        } else {
            i
        },
    decreases i,
{
    if i > 0 {
        lemma_raw_line_len_at(r.skip(1), i - 1);
    }
}

/// The line source.  It owns the input bytes and a cursor; the bytes
/// after the cursor are the part of the input not yet handed out.
pub struct DynReader {
    pub data: Vec<u8>,
    pub pos: usize,
}

impl DynReader {
    /// The cursor stays inside the buffer.
    pub open spec fn wf(&self) -> bool {
        self.pos <= self.data@.len()
    }

    /// The input bytes not yet handed out.
    pub open spec fn remaining(&self) -> Seq<u8> {
        self.data@.skip(self.pos as int)
    }

    /// Wraps a buffer of input bytes as a line source.
    pub fn from_reader(data: Vec<u8>) -> (r: Self)
        ensures
            r.wf(),
            r.remaining() == data@,
    {
        let r = DynReader { data, pos: 0 };
        proof {
            assert(r.data@.skip(0) =~= r.data@);
        }
        r
    }

    /// Appends newly arrived input bytes to the buffer: the input not
    /// yet handed out grows by exactly `more`.
    pub fn feed(&mut self, more: &Vec<u8>)
        requires
            old(self).wf(),
        ensures
            final(self).wf(),
            final(self).pos == old(self).pos,
            final(self).remaining() == old(self).remaining() + more@,
    {
        crate::text::append_bytes(&mut self.data, more);
        proof {
            assert(self.data@.skip(self.pos as int) =~= old(self).data@.skip(
                old(self).pos as int,
            ) + more@);
        }
    }

    /// Hands out the next raw line, or `None` once the input is
    /// exhausted.  A returned line is consumed from the remaining input.
    pub fn read_line(&mut self) -> (r: Option<Vec<u8>>)
        requires
            old(self).wf(),
        ensures
            final(self).wf(),
            final(self).data == old(self).data,
            old(self).remaining().len() == 0 ==> r is None && *final(self) == *old(self),
            old(self).remaining().len() > 0 ==> (r matches Some(l) && l@ == raw_line(
                old(self).remaining(),
            ) && final(self).remaining() == old(self).remaining().skip(
                raw_line_len(old(self).remaining()),
            )),
    {
        if self.pos == self.data.len() {
            return None;
        }
        let ghost rem = self.remaining();
        let mut i: usize = self.pos;
        while i < self.data.len() && self.data[i] != 10
        invariant
            self.pos <= i <= self.data@.len(),
            forall|j: int| self.pos <= j < i ==> self.data@[j] != 10,
        decreases self.data@.len() - i,
        {
            i = i + 1;
        }
        let end: usize = if i < self.data.len() {
            i + 1
        } else {
            i
        };
        proof {
            assert(forall|j: int|
                0 <= j < i - self.pos ==> rem[j] == self.data@[self.pos + j] && rem[j] != 10);
            lemma_raw_line_len_at(rem, i - self.pos);
            assert(raw_line_len(rem) == end - self.pos);
            assert(rem.take(end - self.pos) =~= self.data@.subrange(self.pos as int, end as int));
        }
        let line = crate::text::copy_range(&self.data, self.pos, end);
        let ghost pos0: int = self.pos as int;
        self.pos = end;
        proof {
            assert(self.data@.skip(end as int) =~= self.data@.skip(pos0).skip(end - pos0));
        }
        Some(line)
    }
}

} // verus!
