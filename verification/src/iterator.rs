//! The linear iterator: a left-to-right walk over a string that yields its
//! code units and can skip ahead without reading what it skips.
use crate::indexed::Chunk;
use crate::string::clip;
use crate::string::least;
use crate::string::lemma_window_beyond;
use crate::string::lemma_window_clamp;
use crate::string::lemma_window_empty;
use crate::string::monus;
use crate::string::DynamicString;
use vstd::prelude::*;

verus! {

/// The code units of `node` from position `cursor` up to the bound `end`, or
/// up to the node's declared length where there is no bound.
pub open spec fn span(node: DynamicString, cursor: nat, end: Option<usize>) -> Seq<u16> {
    node.window(
        cursor,
        match end {
            None => node.spec_len(),
            Some(e) => e as nat,
        },
    )
}

/// The code units of the deferred subtrees, the last one of the stack first.
pub open spec fn pending(stack: Seq<(Box<DynamicString>, Option<usize>)>) -> Seq<u16>
    decreases stack.len(),
{
    if stack.len() == 0 {
        Seq::empty()
    } else {
        span(*stack.last().0, 0, stack.last().1) + pending(stack.drop_last())
    }
}

/// The number of nodes of the deferred subtrees.
pub open spec fn pending_nodes(stack: Seq<(Box<DynamicString>, Option<usize>)>) -> nat
    decreases stack.len(),
{
    if stack.len() == 0 {
        0
    } else {
        stack.last().0.nodes() + pending_nodes(stack.drop_last())
    }
}

/// The StringIterator can be used to iterate over the code units of a DynamicString.
pub struct StringIterator {
    /// The subtree that is being read.
    active_chunk: Option<Box<DynamicString>>,
    /// The position in the active subtree of the code unit that `next` returns.
    chunk_index: usize,
    /// Where the active subtree arose from a slice, the position at which it ends.
    end: Option<usize>,
    /// The second sides of concatenations that are visited after the active
    /// subtree, each with the bound that holds for it.
    to_visit: Vec<(Box<DynamicString>, Option<usize>)>,
    /// The declared length of the string the iterator was made for.
    size_hint: usize,
}

impl View for StringIterator {
    type V = Seq<u16>;

    /// The code units that the iterator has yet to yield, in order.
    closed spec fn view(&self) -> Seq<u16> {
        match self.active_chunk {
            None => Seq::empty(),
            Some(node) => span(*node, self.chunk_index as nat, self.end) + pending(self.to_visit@),
        }
    }
}

impl StringIterator {
    /// The length that `size_hint` reports.
    pub closed spec fn total(&self) -> usize {
        self.size_hint
    }

    /// The nodes that the walk has yet to take apart.
    pub closed spec fn remaining_nodes(&self) -> nat {
        match self.active_chunk {
            None => 0,
            Some(node) => node.nodes() + pending_nodes(self.to_visit@),
        }
    }

    /// An iterator over the code units of `string`.
    pub fn new(string: DynamicString) -> (it: Self)
        ensures
            it@ == string@,
            it.total() as nat == clip(string.spec_len()),
    {
        let len = match string.checked_len() {
            Some(n) => n,
            None => usize::MAX,
        };
        let it = StringIterator {
            active_chunk: Some(Box::new(string)),
            chunk_index: 0,
            end: None,
            to_visit: Vec::with_capacity(4),
            size_hint: len,
        };
        assert(pending(it.to_visit@) =~= Seq::<u16>::empty());
        it
    }

    /// Advance to the next chunk.
    #[inline(always)]
    fn advance_chunk(&mut self)
        ensures
            final(self)@ == pending(old(self).to_visit@),
            final(self).remaining_nodes() == pending_nodes(old(self).to_visit@),
            final(self).size_hint == old(self).size_hint,
    {
        match self.to_visit.pop() {
            None => {
                self.active_chunk = None;
            },
            Some((chunk, end)) => {
                self.active_chunk = Some(chunk);
                self.end = end;
                self.chunk_index = 0;
            },
        };
    }

    /// Consume the current slice chunk and compute `end`.
    #[inline(always)]
    fn advance_slice_chunk(&mut self, root: Box<DynamicString>, start: usize, length: usize)
        ensures
            final(self)@ == span(
                DynamicString::SlicedString { root, start, length },
                old(self).chunk_index as nat,
                old(self).end,
            ) + pending(old(self).to_visit@),
            final(self).remaining_nodes() <= root.nodes() + pending_nodes(old(self).to_visit@),
            final(self).size_hint == old(self).size_hint,
    {
        let reach = self.actual_len(length);
        match start.checked_add(self.chunk_index) {
            Some(cursor) => {
                self.active_chunk = Some(root);
                self.chunk_index = cursor;
                self.end = Some(start.saturating_add(reach));
            },
            None => {
                proof {
                    lemma_window_empty(
                        *root,
                        start as nat + self.chunk_index as nat,
                        clip(start as nat + reach as nat),
                    );
                }
                self.advance_chunk();
            },
        }
    }

    /// Consume the current cons chunk and compute `end` for the second part.
    #[inline(always)]
    fn advance_cons_chunk(&mut self, first: Box<DynamicString>, second: Box<DynamicString>)
        ensures
            final(self)@ == span(
                DynamicString::ConsString { first, second },
                old(self).chunk_index as nat,
                old(self).end,
            ) + pending(old(self).to_visit@),
            final(self).remaining_nodes() <= first.nodes() + second.nodes() + pending_nodes(
                old(self).to_visit@,
            ),
            final(self).size_hint == old(self).size_hint,
    {
        let ghost stack = self.to_visit@;
        let ghost f = first.spec_len();
        let ghost g = second.spec_len();
        let ghost c = self.chunk_index as nat;
        match self.end {
            None => {
                let skipped = if self.chunk_index == 0 {
                    None
                } else {
                    match first.checked_len() {
                        Some(first_len) if first_len <= self.chunk_index => Some(first_len),
                        _ => None,
                    }
                };
                match skipped {
                    Some(first_len) => {
                        // First part is not included.
                        proof {
                            lemma_window_beyond(*first, c, f + g);
                        }
                        self.chunk_index -= first_len;
                        self.active_chunk = Some(second);
                    },
                    None => {
                        proof {
                            lemma_window_clamp(*first, c, f + g);
                            assert(stack.push((second, None::<usize>)).drop_last() =~= stack);
                        }
                        self.active_chunk = Some(first);
                        self.to_visit.push((second, None));
                    },
                }
            },
            Some(end) => {
                match first.checked_len() {
                    Some(first_len) if first_len <= self.chunk_index => {
                        // First part is not included.
                        proof {
                            lemma_window_beyond(*first, c, end as nat);
                        }
                        self.chunk_index -= first_len;
                        self.end = Some(end.saturating_sub(first_len));
                        self.active_chunk = Some(second);
                    },
                    Some(first_len) if end > first_len => {
                        proof {
                            assert(stack.push((second, Some((end - first_len) as usize))).drop_last()
                                =~= stack);
                        }
                        self.active_chunk = Some(first);
                        self.to_visit.push((second, Some(end - first_len)));
                    },
                    _ => {
                        proof {
                            lemma_window_empty(*second, monus(c, f), monus(end as nat, f));
                        }
                        self.active_chunk = Some(first);
                    },
                }
            },
        }
    }

    /// Returns the accessible length of a buffer of `len` code units by
    /// applying the value of `end`.
    #[inline(always)]
    fn actual_len(&self, len: usize) -> (n: usize)
        ensures
            n as nat == match self.end {
                None => len as nat,
                Some(e) => least(e as nat, len as nat),
            },
    {
        match self.end {
            None => len,
            Some(n) => if n < len { n } else { len },
        }
    }

    /// True where the active subtree is a buffer with nothing left to read.
    closed spec fn drained(&self) -> bool {
        match self.active_chunk {
            Some(node) => match *node {
                DynamicString::SeqOneByteString(vec) => self.chunk_index as nat >= (match self.end {
                    None => vec@.len(),
                    Some(e) => least(e as nat, vec@.len()),
                }),
                DynamicString::SeqTwoByteString(vec) => self.chunk_index as nat >= (match self.end {
                    None => vec@.len(),
                    Some(e) => least(e as nat, vec@.len()),
                }),
                _ => true,
            },
            None => true,
        }
    }

    /// Reads the code unit under the cursor where the active subtree is a
    /// buffer that has one, and moves the cursor past it.
    fn read(&mut self) -> (r: Option<u16>)
        ensures
            r is Some ==> old(self)@.len() > 0 && r == Some(old(self)@[0]) && final(self)@ == old(
                self,
            )@.skip(1),
            r is None ==> *final(self) == *old(self) && final(self).drained(),
            final(self).size_hint == old(self).size_hint,
    {
        let ready: Option<u16> = match &self.active_chunk {
            None => None,
            Some(node) => match &**node {
                DynamicString::SeqOneByteString(vec) => {
                    if self.chunk_index < self.actual_len(vec.len()) {
                        Some(vec[self.chunk_index] as u16)
                    } else {
                        None
                    }
                },
                DynamicString::SeqTwoByteString(vec) => {
                    if self.chunk_index < self.actual_len(vec.len()) {
                        Some(vec[self.chunk_index])
                    } else {
                        None
                    }
                },
                _ => None,
            },
        };
        if ready.is_some() {
            let ghost before = self@;
            self.chunk_index += 1;
            assert(self@ =~= before.skip(1));
        }
        ready
    }

    /// Takes the active subtree apart by one node: a slice gives way to its
    /// root, a concatenation to one of its sides, a single code unit is
    /// yielded, and a buffer with nothing left gives way to the next deferred
    /// subtree.
    fn unfold(&mut self) -> (r: Option<u16>)
        requires
            old(self).active_chunk is Some,
            old(self).drained(),
        ensures
            r is Some ==> old(self)@.len() > 0 && r == Some(old(self)@[0]) && final(self)@ == old(
                self,
            )@.skip(1),
            r is None ==> final(self)@ == old(self)@,
            final(self).remaining_nodes() < old(self).remaining_nodes(),
            final(self).size_hint == old(self).size_hint,
    {
        let ghost stack = self.to_visit@;
        match self.active_chunk.take() {
            None => None,
            Some(part) => match *part {
                DynamicString::SlicedString { root, start, length } => {
                    self.advance_slice_chunk(root, start, length);
                    None
                },
                DynamicString::ConsString { first, second } => {
                    self.advance_cons_chunk(first, second);
                    None
                },
                DynamicString::SingleOneByteChar(b) => {
                    let inside = self.chunk_index == 0 && self.actual_len(1) > 0;
                    self.advance_chunk();
                    if inside {
                        assert(old(self)@ =~= seq![b as u16] + pending(stack));
                        assert(self@ =~= old(self)@.skip(1));
                        Some(b as u16)
                    } else {
                        None
                    }
                },
                DynamicString::SingleTwoByteChar(b) => {
                    let inside = self.chunk_index == 0 && self.actual_len(1) > 0;
                    self.advance_chunk();
                    if inside {
                        assert(old(self)@ =~= seq![b] + pending(stack));
                        assert(self@ =~= old(self)@.skip(1));
                        Some(b)
                    } else {
                        None
                    }
                },
                _ => {
                    self.advance_chunk();
                    None
                },
            },
        }
    }

    /// The next code unit of the string, or `None` once all have been yielded.
    pub fn next(&mut self) -> (r: Option<u16>)
        ensures
            old(self)@.len() == 0 ==> r is None && final(self)@ == old(self)@,
            old(self)@.len() > 0 ==> r == Some(old(self)@[0]) && final(self)@ == old(self)@.skip(1),
            final(self).total() == old(self).total(),
    {
        loop
            invariant
                self@ == old(self)@,
                self.size_hint == old(self).size_hint,
            decreases self.remaining_nodes(),
        {
            if self.active_chunk.is_none() {
                return None;
            }
            let ready = self.read();
            if ready.is_some() {
                return ready;
            }
            let found = self.unfold();
            if found.is_some() {
                return found;
            }
        }
    }

    /// Where the active subtree is a buffer, skips `n` code units in it: if
    /// more than `n` are left there, the one after them is returned, else the
    /// buffer is dropped and the number still to skip is returned. The first
    /// part of the result says whether the active subtree was a buffer.
    fn leap(&mut self, n: usize) -> (r: (bool, Option<u16>, usize))
        requires
            old(self).active_chunk is Some,
        ensures
            r.0 && r.1 is Some ==> n < old(self)@.len() && r.1 == Some(old(self)@[n as int])
                && final(self)@ == old(self)@.skip(n + 1),
            r.0 && r.1 is None ==> r.2 <= n && n - r.2 <= old(self)@.len() && final(self)@ == old(
                self,
            )@.skip(n - r.2) && final(self).remaining_nodes() < old(self).remaining_nodes(),
            !r.0 ==> *final(self) == *old(self) && final(self).drained(),
            final(self).size_hint == old(self).size_hint,
    {
        let index = self.chunk_index;
        let probe: (bool, Option<u16>, usize) = match &self.active_chunk {
            None => (false, None, 0),
            Some(node) => match &**node {
                DynamicString::SeqOneByteString(vec) => {
                    let len = self.actual_len(vec.len());
                    if index < len && n < len - index {
                        (true, Some(vec[index + n] as u16), 0)
                    } else if index < len {
                        (true, None, len - index)
                    } else {
                        (true, None, 0)
                    }
                },
                DynamicString::SeqTwoByteString(vec) => {
                    let len = self.actual_len(vec.len());
                    if index < len && n < len - index {
                        (true, Some(vec[index + n]), 0)
                    } else if index < len {
                        (true, None, len - index)
                    } else {
                        (true, None, 0)
                    }
                },
                _ => (false, None, 0),
            },
        };
        if !probe.0 {
            return (false, None, n);
        }
        let ghost before = self@;
        let ghost stack = self.to_visit@;
        if probe.1.is_some() {
            self.chunk_index = index + n + 1;
            assert(self@ =~= before.skip(n + 1));
            (true, probe.1, 0)
        } else {
            let rem = probe.2;
            self.advance_chunk();
            assert(self@ =~= before.skip(rem as int));
            (true, None, n - rem)
        }
    }

    /// The code unit `n` places after the next one, or `None` if fewer are
    /// left; the iterator then stands behind it. What is skipped is not read.
    pub fn nth(&mut self, n: usize) -> (r: Option<u16>)
        ensures
            n < old(self)@.len() ==> r == Some(old(self)@[n as int]) && final(self)@ == old(
                self,
            )@.skip(n + 1),
            n >= old(self)@.len() ==> r is None && final(self)@ == Seq::<u16>::empty(),
            final(self).total() == old(self).total(),
    {
        let mut todo: usize = n;
        loop
            invariant
                todo <= n,
                n - todo <= old(self)@.len(),
                self@ == old(self)@.skip(n - todo),
                self.size_hint == old(self).size_hint,
            decreases self.remaining_nodes(),
        {
            if todo == 0 {
                let r = self.next();
                proof {
                    if r is Some {
                        assert(self@ =~= old(self)@.skip(n + 1));
                    } else {
                        assert(self@ =~= Seq::<u16>::empty());
                    }
                }
                return r;
            }
            if self.active_chunk.is_none() {
                assert(self@.len() == 0);
                assert(old(self)@.skip(n - todo).len() == old(self)@.len() - (n - todo));
                return None;
            }
            let (buffer, hit, left) = self.leap(todo);
            if buffer {
                if hit.is_some() {
                    assert(self@ =~= old(self)@.skip(n + 1));
                    return hit;
                }
                assert(self@ =~= old(self)@.skip(n - left));
                todo = left;
            } else {
                if self.unfold().is_some() {
                    assert(self@ =~= old(self)@.skip(n - todo + 1));
                    todo -= 1;
                }
            }
        }
    }

    /// Walks to the next leaf that has code units to give and hands them out
    /// as one chunk, with their number; the iterator then stands behind them.
    pub(crate) fn next_chunk(&mut self) -> (r: Option<(Chunk, usize)>)
        ensures
            r is None ==> old(self)@.len() == 0 && final(self)@ == old(self)@,
            r matches Some((chunk, len)) ==> 0 < len <= chunk.units().len() && old(self)@
                == chunk.units().take(len as int) + final(self)@,
            r is Some ==> final(self).remaining_nodes() < old(self).remaining_nodes(),
            final(self).total() == old(self).total(),
    {
        loop
            invariant
                self@ == old(self)@,
                self.remaining_nodes() <= old(self).remaining_nodes(),
                self.size_hint == old(self).size_hint,
            decreases self.remaining_nodes(),
        {
            let ghost stack = self.to_visit@;
            let ghost before = self@;
            let index = self.chunk_index;
            match self.active_chunk.take() {
                None => {
                    return None;
                },
                Some(part) => match *part {
                    DynamicString::Empty => {
                        self.advance_chunk();
                    },
                    DynamicString::SingleOneByteChar(c) => {
                        let inside = index == 0 && self.actual_len(1) > 0;
                        self.advance_chunk();
                        if inside {
                            let chunk = Chunk::Char(c as u16);
                            assert(before =~= chunk.units().take(1) + self@);
                            return Some((chunk, 1));
                        }
                    },
                    DynamicString::SingleTwoByteChar(c) => {
                        let inside = index == 0 && self.actual_len(1) > 0;
                        self.advance_chunk();
                        if inside {
                            let chunk = Chunk::Char(c);
                            assert(before =~= chunk.units().take(1) + self@);
                            return Some((chunk, 1));
                        }
                    },
                    DynamicString::SeqOneByteString(vec) => {
                        let len = self.actual_len(vec.len());
                        self.advance_chunk();
                        if index < len {
                            let chunk = Chunk::SeqOneByteString { vec, start: index };
                            assert(before =~= chunk.units().take(len - index) + self@);
                            return Some((chunk, len - index));
                        }
                    },
                    DynamicString::SeqTwoByteString(vec) => {
                        let len = self.actual_len(vec.len());
                        self.advance_chunk();
                        if index < len {
                            let chunk = Chunk::SeqTwoByteString { vec, start: index };
                            assert(before =~= chunk.units().take(len - index) + self@);
                            return Some((chunk, len - index));
                        }
                    },
                    DynamicString::SlicedString { root, start, length } => {
                        self.advance_slice_chunk(root, start, length);
                    },
                    DynamicString::ConsString { first, second } => {
                        self.advance_cons_chunk(first, second);
                    },
                },
            }
        }
    }

    /// The declared length of the string the iterator was made for, as both
    /// the lower and the upper bound.
    #[inline]
    pub fn size_hint(&self) -> (r: (usize, Option<usize>))
        ensures
            r == (self.total(), Some(self.total())),
    {
        (self.size_hint, Some(self.size_hint))
    }
}

} // verus!
