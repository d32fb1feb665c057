//! The rope node: its variants, what it stands for, and its basic queries.
use crate::iterator::StringIterator;
use crate::units::decode_utf16_lossy;
use crate::units::encode_utf16;
use crate::units::lemma_utf16_ascii;
use crate::units::utf16;
use crate::units::utf16_lossy;
use std::sync::Arc;
use vstd::prelude::*;
use vstd::string::StrSliceExecFns;

verus! {

/// An immutable string representation with efficient memory management for heavy
/// string manipulations.
#[derive(Debug)]
pub enum DynamicString {
    /// Represents an empty string.
    Empty,
    /// The string consists of a single one-byte (u8) code unit.
    SingleOneByteChar(u8),
    /// The string consists of a single two-byte (u16) code unit.
    SingleTwoByteChar(u16),
    /// A shared buffer of one-byte code units (such as an ASCII text).
    SeqOneByteString(Arc<Vec<u8>>),
    /// A shared buffer of two-byte (UTF-16) code units.
    SeqTwoByteString(Arc<Vec<u16>>),
    /// A view over another string limited to the provided range.
    SlicedString { root: Box<DynamicString>, start: usize, length: usize },
    /// The result of concatenating two strings.
    ConsString { first: Box<DynamicString>, second: Box<DynamicString> },
}

/// One-byte code units read as 16-bit code units.
pub open spec fn widen(bytes: Seq<u8>) -> Seq<u16> {
    bytes.map_values(|b: u8| b as u16)
}

/// The part of `s` at positions `lo <= i < hi`, as far as `s` reaches.
pub open spec fn cut(s: Seq<u16>, lo: nat, hi: nat) -> Seq<u16> {
    if lo < hi && lo < s.len() {
        s.subrange(lo as int, if hi < s.len() { hi as int } else { s.len() as int })
    } else {
        Seq::empty()
    }
}

/// `x - y`, or zero where `y` is the larger.
pub open spec fn monus(x: nat, y: nat) -> nat {
    if x >= y { (x - y) as nat } else { 0 }
}

/// `x`, or the largest machine word where `x` is larger.
pub open spec fn clip(x: nat) -> nat {
    if x <= usize::MAX { x } else { usize::MAX as nat }
}

/// The smaller of two numbers.
pub open spec fn least(x: nat, y: nat) -> nat {
    if x <= y { x } else { y }
}

impl DynamicString {
    /// The length that the node declares: the stored field of a slice, the
    /// buffer's length of a leaf, the sum of both sides of a concatenation.
    pub open spec fn spec_len(&self) -> nat
        decreases self,
    {
        match self {
            DynamicString::Empty => 0,
            DynamicString::SingleOneByteChar(_) => 1,
            DynamicString::SingleTwoByteChar(_) => 1,
            DynamicString::SeqOneByteString(v) => v@.len(),
            DynamicString::SeqTwoByteString(v) => v@.len(),
            DynamicString::SlicedString { length, .. } => *length as nat,
            DynamicString::ConsString { first, second } => first.spec_len() + second.spec_len(),
        }
    }

    /// The code units at positions `lo <= i < hi` of the string.
    ///
    /// A slice hands the request on to its root, moved by its start and cut at
    /// its own length; a position is a machine word, so the far end stops at
    /// `usize::MAX`. A concatenation splits the request at the declared length
    /// of its first side.
    pub open spec fn window(&self, lo: nat, hi: nat) -> Seq<u16>
        decreases self,
    {
        match self {
            DynamicString::Empty => Seq::empty(),
            DynamicString::SingleOneByteChar(b) => cut(seq![*b as u16], lo, hi),
            DynamicString::SingleTwoByteChar(c) => cut(seq![*c], lo, hi),
            DynamicString::SeqOneByteString(v) => cut(widen(v@), lo, hi),
            DynamicString::SeqTwoByteString(v) => cut(v@, lo, hi),
            DynamicString::SlicedString { root, start, length } => root.window(
                *start as nat + lo,
                clip(*start as nat + least(hi, *length as nat)),
            ),
            DynamicString::ConsString { first, second } => first.window(lo, hi) + second.window(
                monus(lo, first.spec_len()),
                monus(hi, first.spec_len()),
            ),
        }
    }

    /// True for the five variants that hold their code units directly.
    pub open spec fn is_flat(&self) -> bool {
        !(self is SlicedString) && !(self is ConsString)
    }

    /// The structural test behind `has_one_byte_char`: no two-byte leaf occurs
    /// below the node.
    pub open spec fn spec_narrow(&self) -> bool
        decreases self,
    {
        match self {
            DynamicString::Empty => true,
            DynamicString::SingleOneByteChar(_) => true,
            DynamicString::SingleTwoByteChar(_) => false,
            DynamicString::SeqOneByteString(_) => true,
            DynamicString::SeqTwoByteString(_) => false,
            DynamicString::SlicedString { root, .. } => root.spec_narrow(),
            DynamicString::ConsString { first, second } => first.spec_narrow()
                && second.spec_narrow(),
        }
    }

    /// Every slice lies within its root, and every length fits a machine word.
    pub open spec fn valid(&self) -> bool
        decreases self,
    {
        match self {
            DynamicString::SlicedString { root, start, length } => {
                &&& root.valid()
                &&& *start + *length <= root.spec_len()
            },
            DynamicString::ConsString { first, second } => {
                &&& first.valid()
                &&& second.valid()
                &&& first.spec_len() + second.spec_len() <= usize::MAX
            },
            _ => true,
        }
    }

    /// No short slice or concatenation occurs in the tree: each one holds at
    /// least sixteen code units, no side of a concatenation is `Empty`, and a
    /// buffer holds at least two code units.
    pub open spec fn compact(&self) -> bool
        decreases self,
    {
        match self {
            DynamicString::SeqOneByteString(v) => v@.len() >= 2,
            DynamicString::SeqTwoByteString(v) => v@.len() >= 2,
            DynamicString::SlicedString { root, start, length } => {
                &&& root.compact()
                &&& *length >= 16
            },
            DynamicString::ConsString { first, second } => {
                &&& first.compact()
                &&& second.compact()
                &&& !(**first is Empty)
                &&& !(**second is Empty)
                &&& first.spec_len() + second.spec_len() >= 16
            },
            _ => true,
        }
    }

    /// The number of nodes of the tree.
    pub open spec fn nodes(&self) -> nat
        decreases self,
    {
        match self {
            DynamicString::SlicedString { root, .. } => 1 + root.nodes(),
            DynamicString::ConsString { first, second } => 1 + first.nodes() + second.nodes(),
            _ => 1,
        }
    }
}

impl View for DynamicString {
    type V = Seq<u16>;

    /// The code units that the string stands for.
    open spec fn view(&self) -> Seq<u16> {
        self.window(0, self.spec_len())
    }
}

/// A request that ends where it begins, or before, holds nothing.
pub proof fn lemma_window_empty(r: DynamicString, lo: nat, hi: nat)
    requires
        lo >= hi,
    ensures
        r.window(lo, hi) =~= Seq::<u16>::empty(),
    decreases r,
{
    match r {
        DynamicString::SlicedString { root, start, length } => {
            lemma_window_empty(*root, start as nat + lo, clip(start as nat + least(hi, length as nat)));
        },
        DynamicString::ConsString { first, second } => {
            lemma_window_empty(*first, lo, hi);
            lemma_window_empty(*second, monus(lo, first.spec_len()), monus(hi, first.spec_len()));
        },
        _ => {},
    }
}

/// Nothing lies past the declared length: a request may be cut there.
pub proof fn lemma_window_clamp(r: DynamicString, lo: nat, hi: nat)
    ensures
        r.window(lo, hi) =~= r.window(lo, least(hi, r.spec_len())),
    decreases r,
{
    match r {
        DynamicString::ConsString { first, second } => {
            let f = first.spec_len();
            let h = least(hi, r.spec_len());
            lemma_window_clamp(*first, lo, hi);
            lemma_window_clamp(*first, lo, h);
            lemma_window_clamp(*second, monus(lo, f), monus(hi, f));
            lemma_window_clamp(*second, monus(lo, f), monus(h, f));
        },
        _ => {},
    }
}

/// A request that begins at the declared length, or past it, holds nothing.
pub proof fn lemma_window_beyond(r: DynamicString, lo: nat, hi: nat)
    requires
        lo >= r.spec_len(),
    ensures
        r.window(lo, hi) =~= Seq::<u16>::empty(),
{
    lemma_window_clamp(r, lo, hi);
    lemma_window_empty(r, lo, least(hi, r.spec_len()));
}

/// A concatenation stands for the code units of its first side, then those
/// of its second side.
pub proof fn lemma_cons_view(first: DynamicString, second: DynamicString)
    ensures
        (DynamicString::ConsString { first: Box::new(first), second: Box::new(second) })@
            == first@ + second@,
{
    let f = first.spec_len();
    let g = second.spec_len();
    lemma_window_clamp(first, 0, f + g);
}

/// In a string whose slices lie within their roots, a request within the
/// declared length holds the code units at its positions, one for each, and
/// the declared length fits a machine word.
pub proof fn lemma_valid_window(r: DynamicString, lo: nat, hi: nat)
    requires
        r.valid(),
        lo <= hi <= r.spec_len(),
    ensures
        r@.len() == r.spec_len(),
        r.window(lo, hi) == r@.subrange(lo as int, hi as int),
        r.spec_len() <= usize::MAX,
    decreases r,
{
    match r {
        DynamicString::SlicedString { root, start, length } => {
            let s = start as nat;
            lemma_valid_window(*root, s + lo, s + hi);
            lemma_valid_window(*root, s, s + length as nat);
            assert(r.window(lo, hi) =~= r@.subrange(lo as int, hi as int));
        },
        DynamicString::ConsString { first, second } => {
            let f = first.spec_len();
            let g = second.spec_len();
            lemma_cons_view(*first, *second);
            lemma_valid_window(*first, 0, f);
            lemma_valid_window(*second, 0, g);
            if hi <= f {
                lemma_valid_window(*first, lo, hi);
                lemma_window_empty(*second, 0, 0);
            } else if lo >= f {
                lemma_window_beyond(*first, lo, hi);
                lemma_valid_window(*second, (lo - f) as nat, (hi - f) as nat);
            } else {
                lemma_window_clamp(*first, lo, hi);
                lemma_valid_window(*first, lo, f);
                lemma_valid_window(*second, 0, (hi - f) as nat);
            }
            assert(r.window(lo, hi) =~= r@.subrange(lo as int, hi as int));
        },
        DynamicString::SeqOneByteString(v) => {
            assert(v.len() == v@.len());
            assert(r.window(lo, hi) =~= r@.subrange(lo as int, hi as int));
        },
        DynamicString::SeqTwoByteString(v) => {
            assert(v.len() == v@.len());
            assert(r.window(lo, hi) =~= r@.subrange(lo as int, hi as int));
        },
        _ => {
            assert(r.window(lo, hi) =~= r@.subrange(lo as int, hi as int));
        },
    }
}

/// A string whose slices lie within their roots holds as many code units as
/// it declares, and their number fits a machine word.
pub proof fn lemma_valid_len(r: DynamicString)
    requires
        r.valid(),
    ensures
        r@.len() == r.spec_len(),
        r.spec_len() <= usize::MAX,
{
    lemma_valid_window(r, 0, r.spec_len());
}

impl DynamicString {
    /// Returns a new empty string.
    #[inline]
    pub fn empty() -> (r: Self)
        ensures
            r is Empty,
            r@ == Seq::<u16>::empty(),
            r.valid(),
            r.compact(),
    {
        DynamicString::Empty
    }

    /// Returns the length of the string.
    pub fn len(&self) -> (n: usize)
        requires
            self.spec_len() <= usize::MAX,
        ensures
            n == self.spec_len(),
            self.valid() ==> n == self@.len(),
        decreases self,
    {
        proof {
            if self.valid() {
                lemma_valid_len(*self);
            }
        }
        match self {
            DynamicString::Empty => 0,
            DynamicString::SingleOneByteChar(_) | DynamicString::SingleTwoByteChar(_) => 1,
            DynamicString::SeqOneByteString(v) => v.len(),
            DynamicString::SeqTwoByteString(v) => v.len(),
            DynamicString::SlicedString { length, .. } => *length,
            DynamicString::ConsString { first, second } => first.len() + second.len(),
        }
    }

    /// Returns the length of the string where it fits a machine word.
    pub fn checked_len(&self) -> (n: Option<usize>)
        ensures
            self.spec_len() <= usize::MAX ==> n == Some(self.spec_len() as usize),
            self.spec_len() > usize::MAX ==> n is None,
        decreases self,
    {
        match self {
            DynamicString::ConsString { first, second } => {
                match first.checked_len() {
                    None => None,
                    Some(f) => match second.checked_len() {
                        None => None,
                        Some(g) => f.checked_add(g),
                    },
                }
            },
            DynamicString::Empty => Some(0),
            DynamicString::SingleOneByteChar(_) | DynamicString::SingleTwoByteChar(_) => Some(1),
            DynamicString::SeqOneByteString(v) => Some(v.len()),
            DynamicString::SeqTwoByteString(v) => Some(v.len()),
            DynamicString::SlicedString { length, .. } => Some(*length),
        }
    }

    /// The declared length of the string where every slice of it lies within
    /// its root and every length fits a machine word, else `None`.
    pub fn measure(&self) -> (n: Option<usize>)
        ensures
            self.valid() ==> n == Some(self.spec_len() as usize) && self.spec_len() <= usize::MAX,
            !self.valid() ==> n is None,
        decreases self,
    {
        match self {
            DynamicString::SlicedString { root, start, length } => match root.measure() {
                None => None,
                Some(within) => match start.checked_add(*length) {
                    Some(end) if end <= within => Some(*length),
                    _ => None,
                },
            },
            DynamicString::ConsString { first, second } => match first.measure() {
                None => None,
                Some(f) => match second.measure() {
                    None => None,
                    Some(g) => f.checked_add(g),
                },
            },
            DynamicString::Empty => Some(0),
            DynamicString::SingleOneByteChar(_) | DynamicString::SingleTwoByteChar(_) => Some(1),
            DynamicString::SeqOneByteString(v) => Some(v.len()),
            DynamicString::SeqTwoByteString(v) => Some(v.len()),
        }
    }

    /// Tells whether every slice of the string lies within its root and
    /// every length fits a machine word.
    pub fn is_valid(&self) -> (b: bool)
        ensures
            b == self.valid(),
    {
        self.measure().is_some()
    }

    /// Returns true if this string only contains one-byte code units, as far
    /// as its structure shows: no two-byte leaf occurs in it.
    pub fn has_one_byte_char(&self) -> (b: bool)
        ensures
            b == self.spec_narrow(),
            b ==> all_narrow(self@),
        decreases self,
    {
        proof {
            if self.spec_narrow() {
                lemma_narrow_window(*self, 0, self.spec_len());
            }
        }
        match self {
            DynamicString::Empty
            | DynamicString::SingleOneByteChar(_)
            | DynamicString::SeqOneByteString(_) => true,
            DynamicString::SingleTwoByteChar(_) | DynamicString::SeqTwoByteString(_) => false,
            DynamicString::SlicedString { root, .. } => root.has_one_byte_char(),
            DynamicString::ConsString { first, second } => {
                first.has_one_byte_char() && second.has_one_byte_char()
            },
        }
    }
}

impl DynamicString {
    /// Returns an iterator over the code units of this string.
    #[inline]
    pub fn iter(&self) -> (it: StringIterator)
        ensures
            it@ == self@,
            it.total() as nat == clip(self.spec_len()),
    {
        self.clone().into_iter()
    }

    /// Turns the string into an iterator over its code units.
    #[inline]
    pub fn into_iter(self) -> (it: StringIterator)
        ensures
            it@ == self@,
            it.total() as nat == clip(self.spec_len()),
    {
        StringIterator::new(self)
    }

    /// The code units of the string, collected into a vector.
    pub fn to_units(&self) -> (units: Vec<u16>)
        ensures
            units@ == self@,
    {
        collect(self.iter())
    }
}

/// `r` is the leaf that holds `units`: `Empty` for none, a single code unit
/// for one, a buffer for more; of one-byte code units where `narrow` is set,
/// of two-byte code units where it is not.
pub open spec fn packed(units: Seq<u16>, narrow: bool, r: DynamicString) -> bool {
    if units.len() == 0 {
        r is Empty
    } else if units.len() == 1 {
        if narrow {
            r == DynamicString::SingleOneByteChar(units[0] as u8)
        } else {
            r == DynamicString::SingleTwoByteChar(units[0])
        }
    } else if narrow {
        r matches DynamicString::SeqOneByteString(v) && widen(v@) == units
    } else {
        r matches DynamicString::SeqTwoByteString(v) && v@ == units
    }
}

/// `r` is what flattening makes of `of`: a leaf with the same code units; `of`
/// itself where it is a leaf, else the leaf that holds its code units, of
/// one-byte code units where no two-byte leaf occurs in `of`.
pub open spec fn flattens(of: DynamicString, r: DynamicString) -> bool {
    &&& r.is_flat()
    &&& r@ == of@
    &&& of.is_flat() ==> r == of
    &&& !of.is_flat() ==> packed(of@, of.spec_narrow(), r)
}

/// Every code unit fits in eight bits.
pub open spec fn all_narrow(units: Seq<u16>) -> bool {
    forall|i: int| 0 <= i < units.len() ==> #[trigger] units[i] < 256
}

/// Where no two-byte leaf occurs in a string, every code unit of it fits in
/// eight bits.
pub proof fn lemma_narrow_window(r: DynamicString, lo: nat, hi: nat)
    requires
        r.spec_narrow(),
    ensures
        all_narrow(r.window(lo, hi)),
    decreases r,
{
    match r {
        DynamicString::SlicedString { root, start, length } => {
            lemma_narrow_window(*root, start as nat + lo, clip(start as nat + least(hi, length as nat)));
        },
        DynamicString::ConsString { first, second } => {
            lemma_narrow_window(*first, lo, hi);
            lemma_narrow_window(*second, monus(lo, first.spec_len()), monus(hi, first.spec_len()));
        },
        _ => {},
    }
}

/// The leaf that holds the given code units.
fn pack(units: Vec<u16>, narrow: bool) -> (r: DynamicString)
    requires
        narrow ==> all_narrow(units@),
    ensures
        packed(units@, narrow, r),
        r@ == units@,
        r.is_flat(),
        r.compact(),
        r.spec_len() == r@.len(),
        r.spec_len() <= usize::MAX,
{
    let len = units.len();
    if len == 0 {
        DynamicString::Empty
    } else if len == 1 {
        if narrow {
            let r = DynamicString::SingleOneByteChar(units[0] as u8);
            assert(r@ =~= units@);
            r
        } else {
            let r = DynamicString::SingleTwoByteChar(units[0]);
            assert(r@ =~= units@);
            r
        }
    } else if narrow {
        let mut bytes: Vec<u8> = Vec::with_capacity(len);
        let mut i: usize = 0;
        while i < len
            invariant
                len == units@.len(),
                i <= len,
                bytes@.len() == i,
                all_narrow(units@),
                forall|k: int| 0 <= k < i ==> #[trigger] bytes@[k] as u16 == units@[k],
            decreases len - i,
        {
            bytes.push(units[i] as u8);
            i += 1;
        }
        assert(widen(bytes@) =~= units@);
        let r = DynamicString::SeqOneByteString(Arc::new(bytes));
        assert(r@ =~= units@);
        r
    } else {
        let r = DynamicString::SeqTwoByteString(Arc::new(units));
        assert(r@ =~= units@);
        r
    }
}

/// The code units that an iterator has yet to yield, collected into a vector.
fn collect(it: StringIterator) -> (units: Vec<u16>)
    ensures
        units@ == it@,
{
    let mut it = it;
    let ghost whole = it@;
    let mut units: Vec<u16> = Vec::new();
    loop
        invariant
            units@ + it@ == whole,
        ensures
            it@.len() == 0,
        decreases it@.len(),
    {
        let ghost before = it@;
        match it.next() {
            None => {
                break ;
            },
            Some(unit) => {
                assert(units@.push(unit) + it@ =~= units@ + before);
                units.push(unit);
            },
        }
    }
    assert(units@ =~= units@ + it@);
    units
}

impl DynamicString {
    /// The string that stands for the UTF-16 code units of `data`: a leaf of
    /// one-byte code units where `data` is ASCII, of two-byte code units
    /// where it is not.
    pub fn new(data: &str) -> (r: Self)
        ensures
            r@ == utf16(data@),
            packed(utf16(data@), data.is_ascii(), r),
            r.is_flat(),
            r.valid(),
            r.compact(),
            r.spec_len() == r@.len(),
            r.spec_len() <= usize::MAX,
    {
        broadcast use vstd::string::group_string_axioms;

        if data.is_ascii() {
            let bytes = data.as_bytes_vec();
            proof {
                lemma_utf16_ascii(data@);
                assert(widen(bytes@) =~= utf16(data@));
            }
            let len = bytes.len();
            if len == 0 {
                DynamicString::empty()
            } else if len == 1 {
                let r = DynamicString::SingleOneByteChar(bytes[0]);
                assert(r@ =~= utf16(data@));
                assert(utf16(data@)[0] as u8 == bytes@[0]);
                r
            } else {
                let r = DynamicString::SeqOneByteString(Arc::new(bytes));
                assert(r@ =~= utf16(data@));
                r
            }
        } else {
            pack(encode_utf16(data), false)
        }
    }

    /// Flatten this DynamicString: a leaf is returned as it is; of any other
    /// string the code units are collected into one leaf, of one-byte code
    /// units where no two-byte leaf occurs in the string.
    pub fn flatten(self) -> (r: Self)
        ensures
            flattens(self, r),
            r@ == self@,
            r.is_flat(),
            r.valid(),
            self.compact() ==> r.compact(),
            r.spec_len() <= usize::MAX,
    {
        match &self {
            DynamicString::Empty
            | DynamicString::SingleOneByteChar(_)
            | DynamicString::SingleTwoByteChar(_)
            | DynamicString::SeqOneByteString(_)
            | DynamicString::SeqTwoByteString(_) => {
                proof {
                    lemma_valid_len(self);
                }
                return self;
            },
            _ => {},
        };
        let narrow = self.has_one_byte_char();
        proof {
            if narrow {
                lemma_narrow_window(self, 0, self.spec_len());
            }
        }
        let units = collect(self.into_iter());
        pack(units, narrow)
    }

    /// The host string that the code units of this string stand for, read as
    /// UTF-16; a surrogate without its partner becomes U+FFFD.
    pub fn to_host(&self) -> (text: String)
        ensures
            text@ == utf16_lossy(self@),
    {
        let units = self.to_units();
        decode_utf16_lossy(&units)
    }

    /// Turns the string into the host string that its code units stand for.
    pub fn into_host(self) -> (text: String)
        ensures
            text@ == utf16_lossy(self@),
    {
        let units = collect(self.into_iter());
        decode_utf16_lossy(&units)
    }
}

impl Clone for DynamicString {
    /// A copy of the tree that shares every leaf buffer with this one.
    fn clone(&self) -> (r: Self)
        ensures
            r == *self,
        decreases self,
    {
        match self {
            DynamicString::Empty => DynamicString::Empty,
            DynamicString::SingleOneByteChar(b) => DynamicString::SingleOneByteChar(*b),
            DynamicString::SingleTwoByteChar(c) => DynamicString::SingleTwoByteChar(*c),
            DynamicString::SeqOneByteString(v) => DynamicString::SeqOneByteString(share(v)),
            DynamicString::SeqTwoByteString(v) => DynamicString::SeqTwoByteString(share(v)),
            DynamicString::SlicedString { root, start, length } => DynamicString::SlicedString {
                root: Box::new((&**root).clone()),
                start: *start,
                length: *length,
            },
            DynamicString::ConsString { first, second } => DynamicString::ConsString {
                first: Box::new((&**first).clone()),
                second: Box::new((&**second).clone()),
            },
        }
    }
}

/// `Arc::clone`: a second handle to the same buffer. The contract claims that
/// the handle stands for the value that the first one stands for.
#[verifier::external_body]
pub(crate) fn share<T>(buffer: &Arc<Vec<T>>) -> (r: Arc<Vec<T>>)
    ensures
        r == *buffer,
{
    Arc::clone(buffer)
}

} // verus!
