//! The batcher: pulls raw lines from a line source, normalizes each one,
//! drops blank lines when asked to, and accumulates the survivors into
//! fixed-size batches.  The final batch before end of input may be
//! shorter, but a batch is never empty.

use vstd::prelude::*;
use crate::reader::DynReader;
use crate::reader::raw_line;
use crate::reader::raw_line_len;
use crate::reader::lemma_raw_line_len_bounds;
use crate::text::trimmed;
use crate::text::eol_stripped;
use crate::text::trim_line;
use crate::text::strip_eol_line;

verus! {

/// A line after normalization: fully trimmed in trim mode, otherwise
/// only its terminator is stripped.
pub open spec fn normalized(l: Seq<u8>, trim: bool) -> Seq<u8> {
    if trim {
        trimmed(l)
    } else {
        eol_stripped(l)
    }
}

/// Whether a normalized line survives blank filtering.
pub open spec fn kept(n: Seq<u8>, skip_blanks: bool) -> bool {
    !(skip_blanks && n.len() == 0)
}

/// The normalized lines of `bytes`, in order, with the lines that blank
/// filtering drops left out.  This is the sequence the batcher's output
/// partitions.
pub open spec fn kept_lines(bytes: Seq<u8>, trim: bool, skip_blanks: bool) -> Seq<Seq<u8>>
    decreases bytes.len(),
    via kept_lines_dec
{
    if bytes.len() == 0 {
        Seq::empty()
    } else {
        let n = normalized(raw_line(bytes), trim);
        let rest = kept_lines(bytes.skip(raw_line_len(bytes)), trim, skip_blanks);
        if kept(n, skip_blanks) {
            seq![n] + rest
        } else {
            rest
        }
    }
}

#[via_fn]
proof fn kept_lines_dec(bytes: Seq<u8>, trim: bool, skip_blanks: bool) {
    lemma_raw_line_len_bounds(bytes);
}

/// All raw lines of `bytes`, in order, before normalization.
pub open spec fn raw_lines(bytes: Seq<u8>) -> Seq<Seq<u8>>
    decreases bytes.len(),
    via raw_lines_dec
{
    if bytes.len() == 0 {
        Seq::empty()
    } else {
        seq![raw_line(bytes)] + raw_lines(bytes.skip(raw_line_len(bytes)))
    }
}

#[via_fn]
proof fn raw_lines_dec(bytes: Seq<u8>) {
    lemma_raw_line_len_bounds(bytes);
}

/// With blank skipping on, no kept line is blank.
pub proof fn lemma_skip_blanks_excludes_blank(bytes: Seq<u8>, trim: bool)
    ensures
        forall|i: int|
            0 <= i < kept_lines(bytes, trim, true).len() ==> (#[trigger] kept_lines(
                bytes,
                trim,
                true,
            )[i]).len() != 0,
    decreases bytes.len(),
{
    if bytes.len() > 0 {
        lemma_raw_line_len_bounds(bytes);
        let n = normalized(raw_line(bytes), trim);
        let rest = kept_lines(bytes.skip(raw_line_len(bytes)), trim, true);
        lemma_skip_blanks_excludes_blank(bytes.skip(raw_line_len(bytes)), trim);
        if kept(n, true) {
            assert forall|i: int|
                0 <= i < kept_lines(bytes, trim, true).len() implies (#[trigger] kept_lines(
                bytes,
                trim,
                true,
            )[i]).len() != 0 by {
                if i == 0 {
                    assert((seq![n] + rest)[0] == n);
                } else {
                    assert((seq![n] + rest)[i] == rest[i - 1]);
                }
            }
        }
    }
}

/// With blank skipping off, every line of the input is kept: the kept
/// lines are exactly the raw lines, each normalized.
pub proof fn lemma_no_skip_keeps_all(bytes: Seq<u8>, trim: bool)
    ensures
        kept_lines(bytes, trim, false).len() == raw_lines(bytes).len(),
        forall|i: int|
            0 <= i < raw_lines(bytes).len() ==> #[trigger] kept_lines(bytes, trim, false)[i]
                == normalized(raw_lines(bytes)[i], trim),
    decreases bytes.len(),
{
    if bytes.len() > 0 {
        lemma_raw_line_len_bounds(bytes);
        lemma_no_skip_keeps_all(bytes.skip(raw_line_len(bytes)), trim);
    }
}

/// The kept lines cut into consecutive groups of `size`, the last group
/// holding whatever is left.
pub open spec fn grouped(s: Seq<Seq<u8>>, size: nat) -> Seq<Seq<Seq<u8>>>
    decreases s.len(),
    when size >= 1
{
    if s.len() == 0 {
        Seq::empty()
    } else if s.len() <= size {
        seq![s]
    } else {
        seq![s.take(size as int)] + grouped(s.skip(size as int), size)
    }
}

/// The groups partition the kept lines: concatenated they give the
/// sequence back, every group but the last has exactly `size` lines, the
/// last has between 1 and `size`, and the number of groups is the
/// length divided by `size`, rounded up.
pub proof fn lemma_grouped_partition(s: Seq<Seq<u8>>, size: nat)
    requires
        size >= 1,
    ensures
        grouped(s, size).flatten() == s,
        grouped(s, size).len() == (s.len() + size - 1) / (size as int),
        forall|i: int|
            0 <= i < grouped(s, size).len() ==> 1 <= (#[trigger] grouped(s, size)[i]).len()
                <= size,
        forall|i: int|
            0 <= i < grouped(s, size).len() - 1 ==> (#[trigger] grouped(s, size)[i]).len()
                == size,
    decreases s.len(),
{
    let g = grouped(s, size);
    if s.len() == 0 {
        assert(g.flatten() =~= s);
        vstd::arithmetic::div_mod::lemma_basic_div(size - 1, size as int);
    } else if s.len() <= size {
        assert(g.drop_first() =~= Seq::<Seq<Seq<u8>>>::empty());
        assert(Seq::<Seq<Seq<u8>>>::empty().flatten() == Seq::<Seq<u8>>::empty());
        assert(g.first() == s);
        assert(s + Seq::<Seq<u8>>::empty() =~= s);
        vstd::arithmetic::div_mod::lemma_div_plus_one(s.len() - 1, size as int);
        vstd::arithmetic::div_mod::lemma_basic_div(s.len() - 1, size as int);
    } else {
        lemma_grouped_partition(s.skip(size as int), size);
        assert(g.first() == s.take(size as int));
        assert(g.drop_first() =~= grouped(s.skip(size as int), size));
        assert(g.flatten() == g.first() + g.drop_first().flatten());
        assert(s.take(size as int) + s.skip(size as int) =~= s);
        vstd::arithmetic::div_mod::lemma_div_plus_one(s.len() - 1, size as int);
        assert(forall|i: int|
            1 <= i < g.len() ==> #[trigger] g[i] == grouped(s.skip(size as int), size)[i - 1]);
    }
}

/// One batch is exactly the first group: the groups of a non-empty
/// sequence are its first `size` lines (or all of them, when no more
/// than `size` are left) followed by the groups of the rest.  Together
/// with `lemma_grouped_partition` this ties the batcher's successive
/// outputs, as `next` describes them, to the partition into groups.
pub proof fn lemma_grouped_step(s: Seq<Seq<u8>>, size: nat)
    requires
        size >= 1,
        s.len() >= 1,
    ensures
        grouped(s, size) == seq![
            s.take(
                if s.len() <= size {
                    s.len() as int
                } else {
                    size as int
                },
            ),
        ] + grouped(
            s.skip(
                if s.len() <= size {
                    s.len() as int
                } else {
                    size as int
                },
            ),
            size,
        ),
{
    if s.len() <= size {
        assert(s.take(s.len() as int) =~= s);
        assert(s.skip(s.len() as int) =~= Seq::<Seq<u8>>::empty());
        assert(grouped(Seq::<Seq<u8>>::empty(), size) == Seq::<Seq<Seq<u8>>>::empty());
        assert(seq![s] + Seq::<Seq<Seq<u8>>>::empty() =~= seq![s]);
    }
}

/// Normalizes one raw line according to the trim mode.
fn normalize_line(l: &Vec<u8>, trim: bool) -> (r: Vec<u8>)
    ensures
        r@ == normalized(l@, trim),
{
    if trim {
        trim_line(l)
    } else {
        strip_eol_line(l)
    }
}

/// The batcher.  It owns the line source and the run's normalization
/// and grouping parameters.
pub struct Batcher {
    pub reader: DynReader,
    pub size: usize,
    pub skip_blanks: bool,
    pub trim: bool,
}

impl Batcher {
    /// The line source is in a good state.
    pub open spec fn wf(&self) -> bool {
        self.reader.wf()
    }

    /// The kept lines still to come from the remaining input.
    pub open spec fn pending(&self) -> Seq<Seq<u8>> {
        kept_lines(self.reader.remaining(), self.trim, self.skip_blanks)
    }

    /// How many lines the next batch holds: a full `size`, or everything
    /// pending when less is left.
    pub open spec fn take_count(&self) -> int {
        if self.pending().len() <= self.size {
            self.pending().len() as int
        } else {
            self.size as int
        }
    }

    /// Wraps a line source with the run's parameters.
    pub fn new(reader: DynReader, size: usize, skip_blanks: bool, trim: bool) -> (r: Self)
        ensures
            r.reader == reader,
            r.size == size,
            r.skip_blanks == skip_blanks,
            r.trim == trim,
    {
        Batcher { reader, size, skip_blanks, trim }
    }

    /// Appends newly arrived input bytes to the line source's buffer.
    /// A streaming caller should feed whole lines: buffered bytes after
    /// the last terminator already count as a final line.
    pub fn feed(&mut self, more: &Vec<u8>)
        requires
            old(self).wf(),
        ensures
            final(self).wf(),
            final(self).size == old(self).size,
            final(self).trim == old(self).trim,
            final(self).skip_blanks == old(self).skip_blanks,
            final(self).reader.remaining() == old(self).reader.remaining() + more@,
    {
        self.reader.feed(more);
    }

    /// Pulls kept lines into `batch` until it holds `size` of them or
    /// the buffered input runs out.
    fn fill(&mut self, batch: &mut Vec<Vec<u8>>)
        requires
            old(self).wf(),
            old(batch)@.len() == 0,
        ensures
            final(self).wf(),
            final(self).size == old(self).size,
            final(self).trim == old(self).trim,
            final(self).skip_blanks == old(self).skip_blanks,
            final(self).reader.data == old(self).reader.data,
            final(batch)@.len() <= old(self).size,
            old(self).pending() == final(batch).deep_view() + final(self).pending(),
            final(batch)@.len() == old(self).size || final(self).reader.remaining().len() == 0,
            old(self).size == 0 ==> *final(self) == *old(self) && final(batch)@.len() == 0,
    {
        proof {
            assert(batch.deep_view() =~= Seq::<Seq<u8>>::empty());
            assert(Seq::<Seq<u8>>::empty() + old(self).pending() =~= old(self).pending());
        }
        loop
            invariant
                self.wf(),
                self.size == old(self).size,
                self.trim == old(self).trim,
                self.skip_blanks == old(self).skip_blanks,
                self.reader.data == old(self).reader.data,
                batch@.len() <= self.size,
                old(self).pending() == batch.deep_view() + self.pending(),
                self.size == 0 ==> *self == *old(self) && batch@.len() == 0,
            ensures
                self.wf(),
                self.size == old(self).size,
                self.trim == old(self).trim,
                self.skip_blanks == old(self).skip_blanks,
                self.reader.data == old(self).reader.data,
                batch@.len() <= self.size,
                old(self).pending() == batch.deep_view() + self.pending(),
                batch@.len() == self.size || self.reader.remaining().len() == 0,
                self.size == 0 ==> *self == *old(self) && batch@.len() == 0,
            decreases self.reader.remaining().len(),
        {
            if batch.len() >= self.size {
                break;
            }
            let ghost rem0 = self.reader.remaining();
            let ghost batch0 = batch.deep_view();
            match self.reader.read_line() {
                None => {
                    break;
                },
                Some(line) => {
                    proof {
                        lemma_raw_line_len_bounds(rem0);
                    }
                    let n = normalize_line(&line, self.trim);
                    if self.skip_blanks && n.len() == 0 {
                    } else {
                        batch.push(n);
                        proof {
                            assert(batch.deep_view() =~~= batch0.push(
                                normalized(raw_line(rem0), self.trim),
                            ));
                            assert(batch0 + (seq![normalized(raw_line(rem0), self.trim)]
                                + self.pending()) =~= batch0.push(
                                normalized(raw_line(rem0), self.trim),
                            ) + self.pending());
                        }
                    }
                },
            }
        }
    }

    /// Produces the next batch: the next `take_count` kept lines, in
    /// input order.  Returns `None` exactly when no kept line is left
    /// (or the batch size is zero); a returned batch is never empty, and
    /// only the final batch may hold fewer than `size` lines.
    pub fn next(&mut self) -> (r: Option<Vec<Vec<u8>>>)
        requires
            old(self).wf(),
        ensures
            final(self).wf(),
            final(self).size == old(self).size,
            final(self).trim == old(self).trim,
            final(self).skip_blanks == old(self).skip_blanks,
            old(self).size == 0 ==> r is None && *final(self) == *old(self),
            old(self).size >= 1 && old(self).pending().len() == 0 ==> r is None
                && final(self).reader.remaining().len() == 0,
            old(self).size >= 1 && old(self).pending().len() >= 1 ==> (r matches Some(b)
                && b.deep_view() == old(self).pending().take(old(self).take_count())
                && b@.len() == old(self).take_count()
                && final(self).pending() == old(self).pending().skip(old(self).take_count())
                && (b@.len() < old(self).size ==> final(self).reader.remaining().len() == 0)),
    {
        let mut batch: Vec<Vec<u8>> = Vec::new();
        self.fill(&mut batch);
        let ghost pend0 = old(self).pending();
        let ghost bdv = batch.deep_view();
        if batch.len() == 0 {
            proof {
                assert(bdv =~= Seq::<Seq<u8>>::empty());
                assert(Seq::<Seq<u8>>::empty() + self.pending() =~= self.pending());
            }
            None
        } else {
            proof {
                assert(pend0.take(bdv.len() as int) =~= bdv);
                assert(pend0.skip(bdv.len() as int) =~= self.pending());
            }
            Some(batch)
        }
    }

    /// Produces the next batch only when the buffered input already
    /// holds `size` kept lines; otherwise returns `None` and leaves the
    /// batcher unchanged, since input that has not arrived yet could
    /// still extend an under-filled batch.  `next` is for input that is
    /// known to be complete.
    pub fn try_next_full(&mut self) -> (r: Option<Vec<Vec<u8>>>)
        requires
            old(self).wf(),
        ensures
            final(self).wf(),
            final(self).size == old(self).size,
            final(self).trim == old(self).trim,
            final(self).skip_blanks == old(self).skip_blanks,
            old(self).size >= 1 && old(self).pending().len() >= old(self).size ==> (r matches Some(
                b,
            ) && b.deep_view() == old(self).pending().take(old(self).size as int)
                && b@.len() == old(self).size
                && final(self).pending() == old(self).pending().skip(old(self).size as int)),
            !(old(self).size >= 1 && old(self).pending().len() >= old(self).size) ==> (r is None
                && *final(self) == *old(self)),
    {
        let pos0: usize = self.reader.pos;
        let mut batch: Vec<Vec<u8>> = Vec::new();
        self.fill(&mut batch);
        let ghost pend0 = old(self).pending();
        let ghost bdv = batch.deep_view();
        if self.size > 0 && batch.len() == self.size {
            proof {
                assert(pend0.take(bdv.len() as int) =~= bdv);
                assert(pend0.skip(bdv.len() as int) =~= self.pending());
            }
            Some(batch)
        } else {
            self.reader.pos = pos0;
            proof {
                assert(self.reader == old(self).reader);
                assert(*self == *old(self));
            }
            None
        }
    }
}

} // verus!
