//! The operations that build on the rope: slicing, appending, searching,
//! splitting and prefix tests.
use crate::pattern::finds;
use crate::pattern::lemma_finds_within;
use crate::pattern::within;
use crate::pattern::PatternFinder;
use crate::string::cut;
use crate::string::least;
use crate::string::lemma_cons_view;
use crate::string::lemma_valid_len;
use crate::string::lemma_valid_window;
use crate::string::monus;
use crate::string::packed;
use crate::string::DynamicString;
use crate::units::utf16;
use crate::MIN_SLICE_LENGTH;
use std::ops::Add;
use vstd::prelude::*;
use vstd::std_specs::ops::AddSpecImpl;

verus! {

/// The section of `s` of `length` code units from `start` on, or of as many
/// as there are; empty where `start` lies at the end of `s` or past it.
pub open spec fn slice_view(s: Seq<u16>, start: nat, length: nat) -> Seq<u16> {
    cut(s, start, start + length)
}

/// The code units of each string of a list.
pub open spec fn views(items: Seq<DynamicString>) -> Seq<Seq<u16>> {
    items.map_values(|r: DynamicString| r@)
}

/// The pieces into which `text` falls at the positions `found` of a
/// separator of `width` code units, from `last` on, where `count` pieces were
/// cut before.
///
/// A position that lies in a separator already cut is passed over. The piece
/// before a position reaches from the end of the separator before it; an
/// empty separator at the very start cuts no piece. Cutting stops when
/// `limit` pieces are there; and what is left after the last separator is a
/// piece unless it is empty.
pub open spec fn pieces(
    text: Seq<u16>,
    width: nat,
    found: Seq<usize>,
    last: nat,
    count: nat,
    limit: Option<usize>,
) -> Seq<Seq<u16>>
    decreases found.len(),
{
    if found.len() == 0 {
        if last < text.len() {
            seq![text.subrange(last as int, text.len() as int)]
        } else {
            Seq::empty()
        }
    } else {
        let at = found[0] as nat;
        if at < last {
            pieces(text, width, found.skip(1), last, count, limit)
        } else if width == 0 && last == 0 && at == 0 {
            pieces(text, width, found.skip(1), at + width, count, limit)
        } else if limit == Some((count + 1) as usize) {
            seq![text.subrange(last as int, at as int)]
        } else {
            seq![text.subrange(last as int, at as int)] + pieces(
                text,
                width,
                found.skip(1),
                at + width,
                count + 1,
                limit,
            )
        }
    }
}

/// The pieces into which `text` falls at the occurrences of `separator`, at
/// most `limit` of them. An empty text falls into one empty piece, unless the
/// separator is empty too.
pub open spec fn split_spec(text: Seq<u16>, separator: Seq<u16>, limit: Option<usize>) -> Seq<
    Seq<u16>,
> {
    if limit == Some(0usize) {
        Seq::empty()
    } else if text.len() == 0 && separator.len() > 0 {
        seq![Seq::empty()]
    } else {
        pieces(text, separator.len(), finds(text, separator), 0, 0, limit)
    }
}

impl DynamicString {
    /// Extracts a section of a string and returns it as a new string, without modifying
    /// this string: `length` code units from `start` on, or as many
    /// as there are. A section of sixteen code units or more is a view of
    /// this string; a shorter one is copied into a leaf.
    pub fn slice(&self, start: usize, length: usize) -> (r: Self)
        requires
            self.valid(),
        ensures
            r.valid(),
            self.compact() ==> r.compact(),
            r.spec_len() == r@.len(),
            length == 0 || start >= self@.len() ==> r is Empty,
            r@ == slice_view(self@, start as nat, length as nat),
            r@.len() == least(length as nat, monus(self@.len(), start as nat)),
            r@.len() >= 16 ==> r == (DynamicString::SlicedString {
                root: Box::new(*self),
                start,
                length: r@.len() as usize,
            }),
            0 < r@.len() < 16 ==> packed(r@, self.spec_narrow(), r),
    {
        proof {
            lemma_valid_len(*self);
        }
        if length == 0 {
            return DynamicString::empty();
        }
        let len = self.len();
        if start >= len {
            return DynamicString::empty();
        }
        // start < len
        // end = start + length
        // max(end) = len
        // => length = min(len - start, length)

        let length = if len - start < length {
            len - start
        } else {
            length
        };

        let ret = DynamicString::SlicedString { root: Box::new(self.clone()), start, length };
        proof {
            lemma_valid_window(*self, start as nat, (start + length) as nat);
        }

        let r = if length < MIN_SLICE_LENGTH {
            ret.flatten()
        } else {
            ret
        };
        proof {
            lemma_valid_len(r);
        }
        r
    }

    /// Concatenate the current string with another string, returns the result.
    /// Where one of the two is `Empty`, the result is the other. A result of
    /// sixteen code units or more shares both strings; a shorter one is
    /// copied into a leaf.
    pub fn append(&self, other: DynamicString) -> (r: Self)
        ensures
            r@ == self@ + other@,
            r@.len() == self@.len() + other@.len(),
            self.valid() && other.valid() && self.spec_len() + other.spec_len() <= usize::MAX
                ==> r.valid() && r.spec_len() == r@.len(),
            self.compact() && other.compact() ==> r.compact(),
            self is Empty ==> r == other,
            other is Empty ==> r == *self,
            !(self is Empty) && !(other is Empty) ==> if self.spec_len() + other.spec_len() >= 16 {
                r == (DynamicString::ConsString { first: Box::new(*self), second: Box::new(other) })
            } else {
                packed(
                    self@ + other@,
                    self.spec_narrow() && other.spec_narrow(),
                    r,
                )
            },
    {
        proof {
            lemma_cons_view(*self, other);
            if self.valid() {
                lemma_valid_len(*self);
            }
            if other.valid() {
                lemma_valid_len(other);
            }
        }
        match (self, &other) {
            (DynamicString::Empty, _) => {
                assert(self@ + other@ =~= other@);
                return other;
            },
            (_, DynamicString::Empty) => {
                assert(self@ + other@ =~= self@);
                return self.clone();
            },
            _ => {},
        }

        let ret = DynamicString::ConsString {
            first: Box::new(self.clone()),
            second: Box::new(other),
        };

        let r = match ret.checked_len() {
            Some(len) if len < MIN_SLICE_LENGTH => ret.flatten(),
            _ => ret,
        };
        proof {
            if self.valid() && other.valid() && self.spec_len() + other.spec_len() <= usize::MAX {
                lemma_valid_len(r);
            }
        }
        r
    }

    /// Return the index of the first occurrence of the specified value in the current string.
    pub fn index_of(&self, pattern: DynamicString) -> (at: Option<usize>)
        requires
            self.valid(),
            pattern.valid(),
        ensures
            finds(self@, pattern@).len() == 0 ==> at is None,
            finds(self@, pattern@).len() > 0 ==> at == Some(finds(self@, pattern@)[0]),
            pattern@.len() == 0 ==> at == Some(0usize),
    {
        let mut finder = PatternFinder::new(self.clone(), pattern);
        finder.next()
    }

    /// Divides a String into an ordered list of substrings, puts these substrings into a vector,
    /// and returns the vector. The division is done by searching for a pattern; where the pattern
    /// is provided as the first parameter in the method's call.
    pub fn split(&self, separator: DynamicString, limit: Option<usize>) -> (out: Vec<
        DynamicString,
    >)
        requires
            self.valid(),
            separator.valid(),
        ensures
            views(out@) == split_spec(self@, separator@, limit),
            forall|i: int| 0 <= i < out.len() ==> (#[trigger] out[i]).valid(),
            self.compact() ==> forall|i: int| 0 <= i < out.len() ==> (#[trigger] out[i]).compact(),
            limit matches Some(n) ==> out.len() <= n,
    {
        let mut result: Vec<DynamicString> = Vec::new();
        match limit {
            Some(0) => {
                assert(views(result@) =~= Seq::<Seq<u16>>::empty());
                return result;
            },
            _ => {},
        }
        proof {
            lemma_valid_len(*self);
            lemma_valid_len(separator);
            lemma_finds_within(self@, separator@);
        }
        let len = self.len();
        let sep_len = separator.len();
        if len == 0 && sep_len > 0 {
            result.push(DynamicString::empty());
            assert(views(result@) =~= seq![Seq::<u16>::empty()]);
            return result;
        }
        let ghost text = self@;
        let ghost whole = pieces(text, sep_len as nat, finds(text, separator@), 0, 0, limit);
        let mut patterns = PatternFinder::new(self.clone(), separator);
        let mut last_index: usize = 0;

        assert(whole == split_spec(self@, separator@, limit));
        loop
            invariant
                self.valid(),
                text == self@,
                whole == split_spec(self@, separator@, limit),
                len == text.len(),
                last_index <= len,
                within(patterns@, sep_len as nat, len as nat) || (patterns@.len() == 1
                    && patterns@[0] == 0 && sep_len == 0),
                limit matches Some(n) ==> result.len() < n,
                forall|i: int| 0 <= i < result.len() ==> (#[trigger] result[i]).valid(),
                self.compact() ==> forall|i: int|
                    0 <= i < result.len() ==> (#[trigger] result[i]).compact(),
                views(result@) + pieces(
                    text,
                    sep_len as nat,
                    patterns@,
                    last_index as nat,
                    result.len() as nat,
                    limit,
                ) == whole,
            ensures
                patterns@.len() == 0,
            decreases patterns@.len(),
        {
            let ghost before = patterns@;
            let ghost so_far = views(result@);
            match patterns.next() {
                None => {
                    break ;
                },
                Some(index) => {
                    assert(index == before[0]);
                    assert(within(patterns@, sep_len as nat, len as nat)) by {
                        assert forall|k: int| 0 <= k < patterns@.len() implies #[trigger] patterns@[k]
                            + sep_len <= len && patterns@[k] < len by {
                            assert(patterns@[k] == before[k + 1]);
                        }
                    }
                    let ghost cut_from = last_index;
                    let ghost cut_before = result.len();
                    if index >= last_index {
                        if !(sep_len == 0 && last_index == 0 && index == 0) {
                            let piece = self.slice(last_index, index - last_index);
                            assert(piece@ =~= text.subrange(last_index as int, index as int));
                            result.push(piece);
                            assert(views(result@) =~= so_far + seq![
                                text.subrange(last_index as int, index as int),
                            ]);
                        }
                        last_index = index + sep_len;
                        match limit {
                            Some(n) if n == result.len() => {
                                assert(pieces(
                                    text,
                                    sep_len as nat,
                                    before,
                                    cut_from as nat,
                                    cut_before as nat,
                                    limit,
                                ) =~= seq![text.subrange(cut_from as int, index as int)]);
                                return result;
                            },
                            _ => {},
                        }
                    }
                },
            }
        }

        if last_index < len {
            let ghost so_far = views(result@);
            let piece = self.slice(last_index, len - last_index);
            assert(piece@ =~= text.subrange(last_index as int, len as int));
            result.push(piece);
            assert(views(result@) =~= so_far + seq![text.subrange(last_index as int, len as int)]);
        } else {
            assert(views(result@) =~= views(result@) + Seq::<Seq<u16>>::empty());
        }

        result
    }

    /// Determines whether a string begins with the code units of a specified string, returning
    /// true or false as appropriate.
    pub fn starts_with(&self, other: DynamicString) -> (b: bool)
        ensures
            b == other@.is_prefix_of(self@),
    {
        let mut mine = self.iter();
        let mut theirs = other.into_iter();
        let ghost mut seen: Seq<u16> = Seq::empty();
        loop
            invariant
                seen + mine@ == self@,
                seen + theirs@ == other@,
            decreases theirs@.len(),
        {
            let ghost left = mine@;
            let ghost right = theirs@;
            match theirs.next() {
                None => {
                    assert(other@ =~= seen);
                    assert(self@.subrange(0, other@.len() as int) =~= other@);
                    return true;
                },
                Some(b) => match mine.next() {
                    None => {
                        assert(self@.len() < other@.len());
                        return false;
                    },
                    Some(a) => {
                        if a != b {
                            assert(self@[seen.len() as int] == a);
                            assert(other@[seen.len() as int] == b);
                            proof {
                                if other@.len() <= self@.len() {
                                    assert(self@.subrange(0, other@.len() as int)[seen.len() as int]
                                        == a);
                                }
                            }
                            return false;
                        }
                        proof {
                            assert(seen.push(a) + mine@ =~= seen + left);
                            assert(seen.push(a) + theirs@ =~= seen + right);
                            seen = seen.push(a);
                        }
                    },
                },
            }
        }
    }
}

impl Add<DynamicString> for DynamicString {
    type Output = DynamicString;

    /// `a + b` is `a.append(b)`.
    fn add(self, rhs: DynamicString) -> (r: DynamicString)
        ensures
            r@ == self@ + rhs@,
    {
        self.append(rhs)
    }
}

impl AddSpecImpl<DynamicString> for DynamicString {
    open spec fn obeys_add_spec() -> bool {
        false
    }

    open spec fn add_req(self, rhs: DynamicString) -> bool {
        true
    }

    open spec fn add_spec(self, rhs: DynamicString) -> DynamicString {
        arbitrary()
    }
}

impl<'a> Add<&'a str> for DynamicString {
    type Output = DynamicString;

    /// `a + text` is `a.append(DynamicString::new(text))`.
    fn add(self, rhs: &'a str) -> (r: DynamicString)
        ensures
            r@ == self@ + utf16(rhs@),
    {
        self.append(DynamicString::new(rhs))
    }
}

impl<'a> AddSpecImpl<&'a str> for DynamicString {
    open spec fn obeys_add_spec() -> bool {
        false
    }

    open spec fn add_req(self, rhs: &'a str) -> bool {
        true
    }

    open spec fn add_spec(self, rhs: &'a str) -> DynamicString {
        arbitrary()
    }
}

} // verus!
