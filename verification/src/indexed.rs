//! The indexed form: a string laid out as a list of chunks with their
//! offsets, for random access by binary search.
use crate::iterator::StringIterator;
use crate::string::share;
use crate::string::widen;
use crate::string::DynamicString;
use std::sync::Arc;
use vstd::prelude::*;

verus! {

/// A run of code units that lies in one leaf of a string: a single code unit,
/// or a shared buffer read from `start` on.
#[allow(inconsistent_fields)]
#[derive(Debug)]
pub enum Chunk {
    Char(u16),
    SeqOneByteString { vec: Arc<Vec<u8>>, start: usize },
    SeqTwoByteString { vec: Arc<Vec<u16>>, start: usize },
}

impl Clone for Chunk {
    /// A copy of the chunk that shares its buffer.
    fn clone(&self) -> (r: Self)
        ensures
            r == *self,
    {
        match self {
            Chunk::Char(c) => Chunk::Char(*c),
            Chunk::SeqOneByteString { vec, start } => Chunk::SeqOneByteString {
                vec: share(vec),
                start: *start,
            },
            Chunk::SeqTwoByteString { vec, start } => Chunk::SeqTwoByteString {
                vec: share(vec),
                start: *start,
            },
        }
    }
}

impl Chunk {
    /// The code units that the chunk can reach: the single one, or the buffer
    /// from `start` to its end.
    pub open spec fn units(&self) -> Seq<u16> {
        match self {
            Chunk::Char(c) => seq![*c],
            Chunk::SeqOneByteString { vec, start } => if *start <= vec@.len() {
                widen(vec@).skip(*start as int)
            } else {
                Seq::empty()
            },
            Chunk::SeqTwoByteString { vec, start } => if *start <= vec@.len() {
                vec@.skip(*start as int)
            } else {
                Seq::empty()
            },
        }
    }

    /// The code unit at `index` of the chunk.
    #[inline]
    pub fn get(&self, index: usize) -> (unit: u16)
        requires
            index < self.units().len(),
        ensures
            unit == self.units()[index as int],
    {
        match self {
            Chunk::Char(c) => *c,
            Chunk::SeqOneByteString { vec, start } => {
                let len = vec.len();
                assert(*start + index < len);
                vec[*start + index] as u16
            },
            Chunk::SeqTwoByteString { vec, start } => {
                let len = vec.len();
                assert(*start + index < len);
                vec[*start + index]
            },
        }
    }
}

/// The code units of a list of chunks with their offsets, `total` being the
/// offset at which the last chunk ends.
pub open spec fn flat(chunks: Seq<(usize, Chunk)>, total: nat) -> Seq<u16>
    decreases chunks.len(),
{
    if chunks.len() == 0 {
        Seq::empty()
    } else {
        flat(chunks.drop_last(), chunks.last().0 as nat) + chunks.last().1.units().take(
            total - chunks.last().0,
        )
    }
}

/// The first offset is zero, each chunk begins where the one before it ends,
/// holds at least one code unit, and can reach all that it contributes.
pub open spec fn laid_out(chunks: Seq<(usize, Chunk)>, total: nat) -> bool
    decreases chunks.len(),
{
    if chunks.len() == 0 {
        total == 0
    } else {
        &&& chunks.last().0 < total
        &&& total - chunks.last().0 <= chunks.last().1.units().len()
        &&& laid_out(chunks.drop_last(), chunks.last().0 as nat)
    }
}

/// The offset at which the chunk at `at` ends.
pub open spec fn chunk_end(chunks: Seq<(usize, Chunk)>, total: nat, at: int) -> nat {
    if at + 1 < chunks.len() {
        chunks[at + 1].0 as nat
    } else {
        total
    }
}

/// In a list that is laid out, offsets grow strictly.
pub proof fn lemma_offsets_grow(chunks: Seq<(usize, Chunk)>, total: nat, i: int, j: int)
    requires
        laid_out(chunks, total),
        0 <= i < j < chunks.len(),
    ensures
        chunks[i].0 < chunks[j].0,
        chunks[j].0 < total,
    decreases chunks.len(),
{
    let rest = chunks.drop_last();
    let offset = chunks.last().0 as nat;
    assert(laid_out(rest, offset));
    if j < chunks.len() - 1 {
        lemma_offsets_grow(rest, offset, i, j);
    } else if i < j - 1 {
        lemma_offsets_grow(rest, offset, i, j - 1);
    } else {
        assert(rest.last() == chunks[i]);
    }
}

/// In a list that is laid out, the first offset is zero.
pub proof fn lemma_first_offset(chunks: Seq<(usize, Chunk)>, total: nat)
    requires
        laid_out(chunks, total),
        chunks.len() > 0,
    ensures
        chunks[0].0 == 0,
    decreases chunks.len(),
{
    assert(laid_out(chunks.drop_last(), chunks.last().0 as nat));
    if chunks.len() > 1 {
        lemma_first_offset(chunks.drop_last(), chunks.last().0 as nat);
    }
}

/// A list that is laid out holds `total` code units, and the one at position
/// `k` is found in the chunk whose range holds `k`, at `k` less its offset.
pub proof fn lemma_flat_lookup(chunks: Seq<(usize, Chunk)>, total: nat, at: int, k: int)
    requires
        laid_out(chunks, total),
        0 <= at < chunks.len(),
        chunks[at].0 <= k < chunk_end(chunks, total, at),
    ensures
        flat(chunks, total).len() == total,
        k - chunks[at].0 < chunks[at].1.units().len(),
        flat(chunks, total)[k] == chunks[at].1.units()[k - chunks[at].0],
    decreases chunks.len(),
{
    lemma_flat_len(chunks, total);
    let rest = chunks.drop_last();
    let offset = chunks.last().0 as nat;
    assert(laid_out(rest, offset));
    lemma_flat_len(rest, offset);
    if at < chunks.len() - 1 {
        assert(chunk_end(rest, offset, at) == chunk_end(chunks, total, at));
        if at + 1 < chunks.len() - 1 {
            lemma_offsets_grow(chunks, total, at + 1, chunks.len() - 1);
        }
        lemma_flat_lookup(rest, offset, at, k);
        assert(flat(chunks, total)[k] == flat(rest, offset)[k]);
    } else {
        assert(flat(chunks, total)[k] == chunks.last().1.units().take(total - offset)[k - offset]);
    }
}

/// A list that is laid out holds `total` code units.
pub proof fn lemma_flat_len(chunks: Seq<(usize, Chunk)>, total: nat)
    requires
        laid_out(chunks, total),
    ensures
        flat(chunks, total).len() == total,
    decreases chunks.len(),
{
    if chunks.len() > 0 {
        lemma_flat_len(chunks.drop_last(), chunks.last().0 as nat);
    }
}

/// The position of the chunk with the greatest offset that is not above
/// `index`, found by binary search.
#[inline(always)]
pub fn search(chunks: &Vec<(usize, Chunk)>, index: usize) -> (at: usize)
    requires
        chunks.len() > 0,
        chunks[0].0 <= index,
        forall|i: int, j: int| 0 <= i < j < chunks.len() ==> chunks[i].0 < chunks[j].0,
    ensures
        at < chunks.len(),
        chunks[at as int].0 <= index,
        at + 1 < chunks.len() ==> index < chunks[at + 1].0,
{
    let mut low: usize = 0;
    let mut high: usize = chunks.len();
    while high - low > 1
        invariant
            low < high <= chunks.len(),
            chunks[low as int].0 <= index,
            high < chunks.len() ==> index < chunks[high as int].0,
            forall|i: int, j: int| 0 <= i < j < chunks.len() ==> chunks[i].0 < chunks[j].0,
        decreases high - low,
    {
        let middle = low + (high - low) / 2;
        if chunks[middle].0 <= index {
            low = middle;
        } else {
            high = middle;
        }
    }
    low
}

/// The IndexedString provides an efficient random access over DynamicStrings; it should be used
/// when there are frequent random accesses on the same string.
#[derive(Debug)]
pub struct IndexedString {
    chunks: Vec<(usize, Chunk)>,
    length: usize,
}

impl View for IndexedString {
    type V = Seq<u16>;

    /// The code units of the string, in order.
    closed spec fn view(&self) -> Seq<u16> {
        flat(self.chunks@, self.length as nat)
    }
}

impl IndexedString {
    #[verifier::type_invariant]
    spec fn well_formed(&self) -> bool {
        laid_out(self.chunks@, self.length as nat)
    }

    /// Creates a new IndexedString from a DynamicString: one chunk for each
    /// leaf that the string reads from, in order, with the offset at which
    /// its code units begin.
    pub fn new(string: DynamicString) -> (indexed: Self)
        requires
            string@.len() <= usize::MAX,
        ensures
            indexed@ == string@,
    {
        let ghost whole = string@;
        let mut chunks = Vec::<(usize, Chunk)>::new();
        let mut index: usize = 0;
        let mut walk = StringIterator::new(string);
        loop
            invariant
                whole.len() <= usize::MAX,
                laid_out(chunks@, index as nat),
                flat(chunks@, index as nat) + walk@ == whole,
            ensures
                walk@.len() == 0,
            decreases walk.remaining_nodes(),
        {
            proof {
                lemma_flat_len(chunks@, index as nat);
            }
            match walk.next_chunk() {
                None => {
                    break ;
                },
                Some((chunk, len)) => {
                    let ghost before = chunks@;
                    let ghost units = chunk.units().take(len as int);
                    chunks.push((index, chunk));
                    assert(chunks@.drop_last() =~= before);
                    assert(flat(before, index as nat) + (units + walk@) =~= (flat(
                        before,
                        index as nat,
                    ) + units) + walk@);
                    index += len;
                },
            }
        }
        assert(flat(chunks@, index as nat) =~= whole);
        IndexedString { chunks, length: index }
    }

    /// Return length of the string.
    #[inline]
    pub fn len(&self) -> (n: usize)
        ensures
            n == self@.len(),
    {
        proof {
            use_type_invariant(self);
            lemma_flat_len(self.chunks@, self.length as nat);
        }
        self.length
    }

    /// Return the code unit at the given index, which must be less than the
    /// length.
    #[inline]
    pub fn at(&self, index: usize) -> (unit: u16)
        requires
            index < self@.len(),
        ensures
            unit == self@[index as int],
    {
        proof {
            use_type_invariant(self);
            lemma_flat_len(self.chunks@, self.length as nat);
            lemma_first_offset(self.chunks@, self.length as nat);
            assert forall|i: int, j: int| 0 <= i < j < self.chunks@.len() implies self.chunks@[i].0
                < self.chunks@[j].0 by {
                lemma_offsets_grow(self.chunks@, self.length as nat, i, j);
            }
        }
        match self.chunks.len() {
            1 => {
                proof {
                    lemma_flat_lookup(self.chunks@, self.length as nat, 0, index as int);
                }
                self.chunks[0].1.get(index)
            },
            _ => {
                let at = search(&self.chunks, index);
                proof {
                    lemma_flat_lookup(self.chunks@, self.length as nat, at as int, index as int);
                }
                let (i, chunk) = &self.chunks[at];
                chunk.get(index - *i)
            },
        }
    }
}

} // verus!
